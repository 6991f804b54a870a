use vstd::prelude::*;

verus! {

/// ASCII whitespace: space, tab, line feed, vertical tab, form feed, carriage return.
pub open spec fn is_space(b: u8) -> bool {
    b == 32 || (9 <= b && b <= 13)
}

/// The length of the UTF-8 encoding of a Unicode whitespace character that
/// starts at `i` in `s`, or 0 where none does. Besides ASCII whitespace these
/// are U+0085, U+00A0, U+1680, U+2000 to U+200A, U+2028, U+2029, U+202F,
/// U+205F and U+3000.
pub open spec fn space_at(s: Seq<u8>, i: int) -> nat {
    if i < 0 || i >= s.len() {
        0
    } else if is_space(s[i]) {
        1
    } else if i + 1 < s.len() && s[i] == 0xC2 && (s[i + 1] == 0x85 || s[i + 1] == 0xA0) {
        2
    } else if i + 2 < s.len() && s[i] == 0xE1 && s[i + 1] == 0x9A && s[i + 2] == 0x80 {
        3
    } else if i + 2 < s.len() && s[i] == 0xE2 && s[i + 1] == 0x80 && ((0x80 <= s[i + 2] && s[i + 2] <= 0x8A)
        || s[i + 2] == 0xA8 || s[i + 2] == 0xA9 || s[i + 2] == 0xAF) {
        3
    } else if i + 2 < s.len() && s[i] == 0xE2 && s[i + 1] == 0x81 && s[i + 2] == 0x9F {
        3
    } else if i + 2 < s.len() && s[i] == 0xE3 && s[i + 1] == 0x80 && s[i + 2] == 0x80 {
        3
    } else {
        0
    }
}

fn space_len(s: &[u8], i: usize) -> (r: usize)
    requires
        i < s@.len(),
    ensures
        r == space_at(s@, i as int),
{
    let n = s.len();
    let b = s[i];
    if b == 32 || (9 <= b && b <= 13) {
        1
    } else if n - i > 1 && b == 0xC2 && (s[i + 1] == 0x85 || s[i + 1] == 0xA0) {
        2
    } else if n - i > 2 && b == 0xE1 && s[i + 1] == 0x9A && s[i + 2] == 0x80 {
        3
    } else if n - i > 2 && b == 0xE2 && s[i + 1] == 0x80 && ((0x80 <= s[i + 2] && s[i + 2] <= 0x8A)
        || s[i + 2] == 0xA8 || s[i + 2] == 0xA9 || s[i + 2] == 0xAF) {
        3
    } else if n - i > 2 && b == 0xE2 && s[i + 1] == 0x81 && s[i + 2] == 0x9F {
        3
    } else if n - i > 2 && b == 0xE3 && s[i + 1] == 0x80 && s[i + 2] == 0x80 {
        3
    } else {
        0
    }
}

pub open spec fn hex_digit(b: u8) -> Option<nat> {
    if 48 <= b && b <= 57 {
        Some((b - 48) as nat)
    } else if 97 <= b && b <= 102 {
        Some((b - 87) as nat)
    } else if 65 <= b && b <= 70 {
        Some((b - 55) as nat)
    } else {
        None
    }
}

pub open spec fn all_hex(d: Seq<u8>) -> bool {
    forall|k: int| 0 <= k < d.len() ==> (#[trigger] hex_digit(d[k])) is Some
}

/// The number that hex digits `d` spell, most significant first.
pub open spec fn digits_value(d: Seq<u8>) -> nat
    decreases d.len(),
{
    if d.len() == 0 {
        0
    } else {
        digits_value(d.drop_last()) * 16 + hex_digit(d.last())->Some_0
    }
}

/// A token read as a byte in base 16: an optional `+`, then one or more hex
/// digits whose value is at most 255.
pub open spec fn token_value(t: Seq<u8>) -> Option<u8> {
    let d = if t.len() > 0 && t[0] == 43 { t.drop_first() } else { t };
    if d.len() > 0 && all_hex(d) && digits_value(d) <= 255 {
        Some(digits_value(d) as u8)
    } else {
        None
    }
}

/// What one token contributes: its byte, or nothing where it is not one.
pub open spec fn emit(t: Seq<u8>) -> Seq<u8> {
    match token_value(t) {
        Some(b) => seq![b],
        None => Seq::empty(),
    }
}

/// The bytes of the tokens of `s` from `i` on, where the current token began
/// at `start`; tokens are separated by Unicode whitespace.
pub open spec fn scan(s: Seq<u8>, start: int, i: int) -> Seq<u8>
    decreases s.len() - i,
{
    if i >= s.len() {
        emit(s.subrange(start, s.len() as int))
    } else if space_at(s, i) > 0 {
        emit(s.subrange(start, i)) + scan(s, i + space_at(s, i), i + space_at(s, i))
    } else {
        scan(s, start, i + 1)
    }
}

/// The bytes that the whitespace-separated tokens of `s` spell in base 16,
/// in order, leaving out every token that is not a byte.
pub open spec fn hex_bytes(s: Seq<u8>) -> Seq<u8> {
    scan(s, 0, 0)
}

fn digit_of(b: u8) -> (r: Option<u8>)
    ensures
        r is None <==> hex_digit(b) is None,
        r matches Some(v) ==> v as nat == hex_digit(b)->Some_0 && v < 16,
{
    if 48 <= b && b <= 57 {
        Some(b - 48)
    } else if 97 <= b && b <= 102 {
        Some(b - 87)
    } else if 65 <= b && b <= 70 {
        Some(b - 55)
    } else {
        None
    }
}

/// The token `s[start..end]` read as a byte in base 16.
pub fn parse_token(s: &[u8], start: usize, end: usize) -> (r: Option<u8>)
    requires
        start <= end <= s@.len(),
    ensures
        r == token_value(s@.subrange(start as int, end as int)),
{
    let ghost t = s@.subrange(start as int, end as int);
    let mut a = start;
    if start < end && s[start] == 43 {
        a = start + 1;
    }
    let ghost d = s@.subrange(a as int, end as int);
    assert(d == if t.len() > 0 && t[0] == 43 { t.drop_first() } else { t });
    if a == end {
        return None;
    }
    let mut v: u32 = 0;
    let mut k = a;
    while k < end
        invariant
            start <= a <= k <= end <= s@.len(),
            d == s@.subrange(a as int, end as int),
            t == s@.subrange(start as int, end as int),
            d == if t.len() > 0 && t[0] == 43 { t.drop_first() } else { t },
            all_hex(s@.subrange(a as int, k as int)),
            v as nat == if digits_value(s@.subrange(a as int, k as int)) < 256 {
                digits_value(s@.subrange(a as int, k as int))
            } else {
                256
            },
        decreases end - k,
    {
        let ghost prev = s@.subrange(a as int, k as int);
        let ghost next = s@.subrange(a as int, k + 1);
        assert(next.drop_last() =~= prev);
        assert(next.last() == s@[k as int]);
        match digit_of(s[k]) {
            None => {
                assert(d[k - a] == s@[k as int]);
                assert(hex_digit(d[k - a]) is None);
                assert(!all_hex(d));
                return None;
            },
            Some(x) => {
                assert forall|j: int| 0 <= j < next.len() implies (#[trigger] hex_digit(next[j])) is Some by {
                    if j < prev.len() {
                        assert(next[j] == prev[j]);
                    }
                }
                v = if v < 256 { v * 16 + x as u32 } else { 256 };
                if v > 256 {
                    v = 256;
                }
            },
        }
        k = k + 1;
    }
    assert(s@.subrange(a as int, k as int) =~= d);
    if v <= 255 {
        Some(v as u8)
    } else {
        None
    }
}

/// The bytes that the whitespace-separated tokens of the UTF-8 text `s`
/// spell in base 16, each token read as `u8::from_str_radix(token, 16)`
/// reads it; tokens that are not a byte are left out. Any Unicode whitespace
/// separates tokens.
pub fn parse_hex_bytes(s: &[u8]) -> (r: Vec<u8>)
    ensures
        r@ == hex_bytes(s@),
{
    let mut out: Vec<u8> = Vec::new();
    let mut start: usize = 0;
    let mut i: usize = 0;
    while i < s.len()
        invariant
            start <= i <= s@.len(),
            out@ + scan(s@, start as int, i as int) == hex_bytes(s@),
        decreases s@.len() - i,
    {
        let n = space_len(s, i);
        if n > 0 {
            let ghost before = out@;
            if let Some(b) = parse_token(s, start, i) {
                out.push(b);
            }
            assert(out@ =~= before + emit(s@.subrange(start as int, i as int)));
            assert(out@ + scan(s@, i + n, i + n) =~= before + scan(s@, start as int, i as int));
            start = i + n;
            i = i + n;
        } else {
            i = i + 1;
        }
    }
    let ghost before = out@;
    if let Some(b) = parse_token(s, start, i) {
        out.push(b);
    }
    assert(out@ =~= before + emit(s@.subrange(start as int, s@.len() as int)));
    out
}

} // verus!
