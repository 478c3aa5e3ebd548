//! The browser client's certificate-hash file: a one-line JSON object
//! `{"sha256_hex":"…","port":6467}`, read by hand rather than through a
//! JSON parser (the file is written by the server and never nests).

use vstd::prelude::*;
use vstd::string::StrSliceExecFns;
use vstd::std_specs::iter::IteratorSpec;

verus! {

/// `p` occurs in `s` starting at position `i`.
pub open spec fn occurs_at(s: Seq<char>, p: Seq<char>, i: int) -> bool {
    0 <= i && i + p.len() <= s.len() && s.subrange(i, i + p.len()) == p
}

/// The first occurrence of `p` in `s` that starts at or after `from`.
pub open spec fn find_from(s: Seq<char>, p: Seq<char>, from: int) -> Option<int>
    decreases s.len() + 1 - from,
{
    if from < 0 || from + p.len() > s.len() {
        None
    } else if occurs_at(s, p, from) {
        Some(from)
    } else {
        find_from(s, p, from + 1)
    }
}

/// The second piece of `s` split at each (non-overlapping, leftmost)
/// occurrence of `p`: what follows the first occurrence, up to the next
/// one or the end. `None` when `p` does not occur.
pub open spec fn second_piece(s: Seq<char>, p: Seq<char>) -> Option<Seq<char>> {
    match find_from(s, p, 0) {
        None => None,
        Some(i) => {
            let start = i + p.len();
            match find_from(s, p, start) {
                Some(j) => Some(s.subrange(start, j)),
                None => Some(s.subrange(start, s.len() as int)),
            }
        },
    }
}

/// Position of the first `c` in `s` at or after `from`, or the length.
pub open spec fn index_of_from(s: Seq<char>, c: char, from: int) -> int
    decreases s.len() - from,
{
    if from < 0 || from >= s.len() {
        s.len() as int
    } else if s[from] == c {
        from
    } else {
        index_of_from(s, c, from + 1)
    }
}

/// The part of `s` before its first `"`.
pub open spec fn before_quote(s: Seq<char>) -> Seq<char> {
    s.take(index_of_from(s, '"', 0))
}

/// A character that trails the port number: `}`, a space or a newline.
pub open spec fn is_trailer(c: char) -> bool {
    c == '}' || c == ' ' || c == '\n'
}

/// `s` without its trailing `}`, space and newline characters.
pub open spec fn trim_trailers(s: Seq<char>) -> Seq<char>
    decreases s.len(),
{
    if s.len() > 0 && is_trailer(s.last()) {
        trim_trailers(s.drop_last())
    } else {
        s
    }
}

pub open spec fn is_digit(c: char) -> bool {
    '0' <= c && c <= '9'
}

/// The decimal value of a string of digits.
pub open spec fn digits_value(d: Seq<char>) -> nat
    decreases d.len(),
{
    if d.len() == 0 {
        0
    } else {
        digits_value(d.drop_last()) * 10 + ((d.last() as int - '0' as int) as nat)
    }
}

/// `s` without one leading `+`, if it has one.
pub open spec fn unsigned_part(s: Seq<char>) -> Seq<char> {
    if s.len() > 0 && s[0] == '+' {
        s.drop_first()
    } else {
        s
    }
}

/// Every character of `d` is a decimal digit.
pub open spec fn all_digits(d: Seq<char>) -> bool {
    forall|i: int| 0 <= i < d.len() ==> is_digit(#[trigger] d[i])
}

/// How a `u16` reads from text: an optional `+`, then at least one decimal
/// digit and nothing else, with a value that fits.
pub open spec fn parse_u16_spec(s: Seq<char>) -> Option<u16> {
    let d = unsigned_part(s);
    if d.len() > 0 && all_digits(d) && digits_value(d) <= u16::MAX {
        Some(digits_value(d) as u16)
    } else {
        None
    }
}

/// The key introducing the certificate hash: `"sha256_hex":"`.
pub open spec fn hash_key() -> Seq<char> {
    seq!['"', 's', 'h', 'a', '2', '5', '6', '_', 'h', 'e', 'x', '"', ':', '"']
}

/// The key introducing the port: `"port":`.
pub open spec fn port_key() -> Seq<char> {
    seq!['"', 'p', 'o', 'r', 't', '"', ':']
}

/// What the hash file says: the hash is the text after the first
/// `"sha256_hex":"` up to the next `"` (or the next such key), the port the
/// text after the first `"port":` (up to the next such key), trailing `}`,
/// spaces and newlines removed, read as a `u16`. `None` when either key is
/// missing or the port does not read.
pub open spec fn hash_file_spec(text: Seq<char>) -> Option<(Seq<char>, u16)> {
    match second_piece(text, hash_key()) {
        None => None,
        Some(h) => match second_piece(text, port_key()) {
            None => None,
            Some(p) => match parse_u16_spec(trim_trailers(p)) {
                None => None,
                Some(port) => Some((before_quote(h), port)),
            },
        },
    }
}

fn chars_of(text: &str) -> (r: Vec<char>)
    ensures
        r@ == text@,
{
    broadcast use vstd::string::axiom_spec_iter;

    let mut out: Vec<char> = Vec::new();
    for c in it: text.chars()
        invariant
            it.seq() == text@,
            out@ == text@.take(it.index() as int),
    {
        proof {
            assert(text@.take(it.index() + 1) == text@.take(it.index() as int).push(c));
        }
        out.push(c);
    }
    proof {
        assert(text@.take(text@.len() as int) == text@);
    }
    out
}

fn occurs_at_exec(s: &Vec<char>, p: &Vec<char>, i: usize) -> (r: bool)
    requires
        i + p@.len() <= s@.len(),
    ensures
        r == occurs_at(s@, p@, i as int),
{
    let mut k: usize = 0;
    while k < p.len()
        invariant
            i + p@.len() <= s.len(),
            k <= p@.len(),
            forall|m: int| 0 <= m < k ==> s@[i + m] == p@[m],
        decreases p@.len() - k,
    {
        if s[i + k] != p[k] {
            proof {
                assert(s@.subrange(i as int, i + p@.len())[k as int] != p@[k as int]);
            }
            return false;
        }
        k = k + 1;
    }
    proof {
        assert(s@.subrange(i as int, i + p@.len()) =~= p@);
    }
    true
}

fn find_from_exec(s: &Vec<char>, p: &Vec<char>, from: usize) -> (r: Option<usize>)
    ensures
        match r {
            Some(i) => find_from(s@, p@, from as int) == Some(i as int) && from <= i && i
                + p@.len() <= s@.len(),
            None => find_from(s@, p@, from as int) is None,
        },
{
    if p.len() > s.len() {
        return None;
    }
    let last = s.len() - p.len();
    let mut i: usize = from;
    while i <= last
        invariant
            last + p@.len() == s@.len(),
            from <= i,
            find_from(s@, p@, from as int) == find_from(s@, p@, i as int),
        decreases last + 1 - i,
    {
        if occurs_at_exec(s, p, i) {
            return Some(i);
        }
        if i == last {
            return None;
        }
        i = i + 1;
    }
    None
}

fn index_of_exec(s: &Vec<char>, c: char, from: usize, to: usize) -> (r: usize)
    requires
        from <= to <= s@.len(),
    ensures
        r == if index_of_from(s@.subrange(from as int, to as int), c, 0) < to - from {
            from + index_of_from(s@.subrange(from as int, to as int), c, 0)
        } else {
            to as int
        },
        from <= r <= to,
{
    let ghost seg = s@.subrange(from as int, to as int);
    let mut i: usize = from;
    while i < to
        invariant
            from <= i <= to <= s@.len(),
            seg == s@.subrange(from as int, to as int),
            index_of_from(seg, c, 0) == index_of_from(seg, c, i - from),
        decreases to - i,
    {
        if s[i] == c {
            return i;
        }
        i = i + 1;
    }
    i
}

/// Reads `{"sha256_hex":"…","port":…}` into the hash and the port; `None`
/// when the text does not hold both.
pub fn parse_hash_json(text: &str) -> (r: Option<(String, u16)>)
    ensures
        match r {
            Some((hex, port)) => hash_file_spec(text@) == Some((hex@, port)),
            None => hash_file_spec(text@) is None,
        },
{
    let s = chars_of(text);
    let n = s.len();
    let hk: Vec<char> = vec!['"', 's', 'h', 'a', '2', '5', '6', '_', 'h', 'e', 'x', '"', ':', '"'];
    let pk: Vec<char> = vec!['"', 'p', 'o', 'r', 't', '"', ':'];
    proof {
        assert(hk@ =~= hash_key());
        assert(pk@ =~= port_key());
    }
    // The hash: second piece at the hash key, up to its first quote.
    let i = match find_from_exec(&s, &hk, 0) {
        Some(i) => i,
        None => {
            return None;
        },
    };
    let h_start = i + hk.len();
    let h_end = match find_from_exec(&s, &hk, h_start) {
        Some(j) => j,
        None => s.len(),
    };
    // The port: second piece at the port key.
    let k = match find_from_exec(&s, &pk, 0) {
        Some(k) => k,
        None => {
            return None;
        },
    };
    let p_start = k + pk.len();
    let p_end = match find_from_exec(&s, &pk, p_start) {
        Some(j) => j,
        None => s.len(),
    };
    proof {
        assert(h_start <= h_end) by {
            lemma_find_from_at_least(s@, hk@, h_start as int);
        }
        assert(p_start <= p_end) by {
            lemma_find_from_at_least(s@, pk@, p_start as int);
        }
    }
    let port = match parse_port(&s, p_start, p_end) {
        Some(port) => port,
        None => {
            return None;
        },
    };
    let q = index_of_exec(&s, '"', h_start, h_end);
    proof {
        let h = s@.subrange(h_start as int, h_end as int);
        assert(second_piece(s@, hk@) == Some(h));
        lemma_index_of_bound(h, '"', 0);
        assert(before_quote(h) =~= s@.subrange(h_start as int, q as int));
        lemma_find_from_within(s@, hk@, 0);
        lemma_find_from_within(s@, pk@, 0);
    }
    let hex = String::from_str(text.substring_char(h_start, q));
    Some((hex, port))
}

proof fn lemma_find_from_at_least(s: Seq<char>, p: Seq<char>, from: int)
    ensures
        find_from(s, p, from) matches Some(j) ==> from <= j && j + p.len() <= s.len(),
    decreases s.len() + 1 - from,
{
    if !(from < 0 || from + p.len() > s.len()) && !occurs_at(s, p, from) {
        lemma_find_from_at_least(s, p, from + 1);
    }
}

proof fn lemma_find_from_within(s: Seq<char>, p: Seq<char>, from: int)
    ensures
        find_from(s, p, from) matches Some(j) ==> occurs_at(s, p, j),
    decreases s.len() + 1 - from,
{
    if !(from < 0 || from + p.len() > s.len()) && !occurs_at(s, p, from) {
        lemma_find_from_within(s, p, from + 1);
    }
}

proof fn lemma_index_of_bound(s: Seq<char>, c: char, from: int)
    requires
        0 <= from,
    ensures
        from <= index_of_from(s, c, from) <= s.len() || (from > s.len() && index_of_from(s, c, from)
            == s.len()),
    decreases s.len() - from,
{
    if from < s.len() && s[from] != c {
        lemma_index_of_bound(s, c, from + 1);
    }
}

/// Reads the port from `s[from..to]`: trailing `}`, spaces and newlines
/// dropped, then an optional `+` and decimal digits that fit a `u16`.
fn parse_port(s: &Vec<char>, from: usize, to: usize) -> (r: Option<u16>)
    requires
        from <= to <= s@.len(),
    ensures
        r == parse_u16_spec(trim_trailers(s@.subrange(from as int, to as int))),
{
    // Drop trailers from the end.
    let mut end: usize = to;
    while end > from && (s[end - 1] == '}' || s[end - 1] == ' ' || s[end - 1] == '\n')
        invariant
            from <= end <= to <= s@.len(),
            trim_trailers(s@.subrange(from as int, to as int)) == trim_trailers(
                s@.subrange(from as int, end as int),
            ),
        decreases end - from,
    {
        proof {
            let t = s@.subrange(from as int, end as int);
            assert(t.drop_last() =~= s@.subrange(from as int, end - 1));
        }
        end = end - 1;
    }
    let ghost t = s@.subrange(from as int, end as int);
    proof {
        assert(trim_trailers(t) == t);
        assert(trim_trailers(s@.subrange(from as int, to as int)) == t);
    }
    let mut start: usize = from;
    if start < end && s[start] == '+' {
        start = start + 1;
    }
    let ghost d = s@.subrange(start as int, end as int);
    proof {
        if t.len() > 0 && t[0] == '+' {
            assert(t[0] == s@[from as int]);
            assert(d =~= t.drop_first());
        } else {
            if from < end {
                assert(t[0] == s@[from as int]);
            }
            assert(d =~= t);
        }
        assert(d == unsigned_part(t));
    }
    if start == end {
        proof {
            assert(d.len() == 0);
            assert(parse_u16_spec(t) is None);
        }
        return None;
    }
    let mut value: u32 = 0;
    let mut i: usize = start;
    while i < end
        invariant
            from <= start <= i <= end <= to <= s@.len(),
            d == s@.subrange(start as int, end as int),
            t == s@.subrange(from as int, end as int),
            trim_trailers(s@.subrange(from as int, to as int)) == t,
            d == unsigned_part(t),
            forall|m: int| 0 <= m < i - start ==> is_digit(#[trigger] d[m]),
            value == digits_value(d.take(i - start)),
            value <= u16::MAX,
        decreases end - i,
    {
        let c = s[i];
        if !('0' <= c && c <= '9') {
            proof {
                assert(d[i - start] == c);
                assert(!is_digit(d[i - start]));
                assert(!all_digits(d));
                assert(parse_u16_spec(t) is None);
            }
            return None;
        }
        let digit: u32 = (c as u32) - ('0' as u32);
        proof {
            assert(d.take(i - start + 1).drop_last() =~= d.take(i - start));
            assert(d.take(i - start + 1).last() == c);
        }
        if value > 6553 || value * 10 + digit > 65535 {
            proof {
                assert(digits_value(d.take(i - start + 1)) > u16::MAX);
                if all_digits(d) {
                    lemma_digits_value_grows(d, i - start + 1);
                }
                assert(parse_u16_spec(t) is None);
            }
            return None;
        }
        value = value * 10 + digit;
        i = i + 1;
    }
    proof {
        assert(d.take(end - start) =~= d);
        assert(parse_u16_spec(t) == Some(value as u16));
    }
    Some(value as u16)
}

/// The value of a digit string is at least that of each prefix.
proof fn lemma_digits_value_grows(d: Seq<char>, n: int)
    requires
        0 <= n <= d.len(),
        all_digits(d),
    ensures
        digits_value(d) >= digits_value(d.take(n)),
    decreases d.len(),
{
    if n < d.len() {
        assert(d.drop_last().take(n) =~= d.take(n));
        lemma_digits_value_grows(d.drop_last(), n);
    } else {
        assert(d.take(n) =~= d);
    }
}

/// The value of hexadecimal digit `c`, or -1 when `c` is not one.
pub open spec fn hex_value(c: char) -> int {
    if '0' <= c && c <= '9' {
        c as int - '0' as int
    } else if 'a' <= c && c <= 'f' {
        c as int - 'a' as int + 10
    } else if 'A' <= c && c <= 'F' {
        c as int - 'A' as int + 10
    } else {
        -1
    }
}

/// How a two-character string reads as a byte in base 16: two digits, or
/// `+` and one digit.
pub open spec fn pair_value(a: char, b: char) -> Option<u8> {
    if hex_value(a) >= 0 && hex_value(b) >= 0 {
        Some((16 * hex_value(a) + hex_value(b)) as u8)
    } else if a == '+' && hex_value(b) >= 0 {
        Some(hex_value(b) as u8)
    } else {
        None
    }
}

/// The bytes of a string of character pairs, each read by `pair_value`;
/// `None` when some pair does not read.
pub open spec fn decode_pairs(s: Seq<char>) -> Option<Seq<u8>>
    decreases s.len(),
{
    if s.len() < 2 {
        Some(Seq::empty())
    } else {
        match decode_pairs(s.take(s.len() - 2)) {
            None => None,
            Some(init) => match pair_value(s[s.len() - 2], s[s.len() - 1]) {
                None => None,
                Some(v) => Some(init.push(v)),
            },
        }
    }
}

/// Every character is ASCII.
pub open spec fn all_ascii(s: Seq<char>) -> bool {
    forall|i: int| 0 <= i < s.len() ==> #[trigger] s[i] < '\u{80}'
}

/// The certificate hash as bytes: an ASCII string of even length whose
/// character pairs each read as a base-16 byte.
pub open spec fn decode_hex_spec(s: Seq<char>) -> Option<Seq<u8>> {
    if !all_ascii(s) || s.len() % 2 != 0 {
        None
    } else {
        decode_pairs(s)
    }
}

proof fn lemma_decode_none_extends(s: Seq<char>, i: int, n: int)
    requires
        0 <= i <= n,
        2 * n <= s.len(),
        decode_pairs(s.take(2 * i)) is None,
    ensures
        decode_pairs(s.take(2 * n)) is None,
    decreases n - i,
{
    if i < n {
        let t = s.take(2 * i + 2);
        assert(t.take(t.len() - 2) =~= s.take(2 * i));
        lemma_decode_none_extends(s, i + 1, n);
    }
}

fn hex_digit(c: char) -> (r: Option<u8>)
    ensures
        match r {
            Some(v) => hex_value(c) >= 0 && v == hex_value(c),
            None => hex_value(c) < 0,
        },
{
    if '0' <= c && c <= '9' {
        Some((c as u32 - '0' as u32) as u8)
    } else if 'a' <= c && c <= 'f' {
        Some((c as u32 - 'a' as u32 + 10) as u8)
    } else if 'A' <= c && c <= 'F' {
        Some((c as u32 - 'A' as u32 + 10) as u8)
    } else {
        None
    }
}

/// Decodes the certificate hash: an ASCII string of even length whose
/// character pairs each read as a base-16 byte (two digits, or `+` and one
/// digit); `None` otherwise.
pub fn decode_hex(hex: &str) -> (r: Option<Vec<u8>>)
    ensures
        match r {
            Some(bytes) => decode_hex_spec(hex@) == Some(bytes@),
            None => decode_hex_spec(hex@) is None,
        },
{
    let s = chars_of(hex);
    let n = s.len();
    let mut k: usize = 0;
    while k < n
        invariant
            k <= n == s@.len(),
            s@ == hex@,
            forall|j: int| 0 <= j < k ==> #[trigger] s@[j] < '\u{80}',
        decreases n - k,
    {
        if s[k] >= '\u{80}' {
            proof {
                assert(!(s@[k as int] < '\u{80}'));
                assert(!all_ascii(hex@));
            }
            return None;
        }
        k = k + 1;
    }
    if n % 2 != 0 {
        return None;
    }
    let mut out: Vec<u8> = Vec::new();
    let mut i: usize = 0;
    proof {
        assert(s@.take(0) =~= Seq::<char>::empty());
        assert(out@ =~= Seq::<u8>::empty());
    }
    while i < n / 2
        invariant
            n == s@.len(),
            s@ == hex@,
            n % 2 == 0,
            all_ascii(s@),
            i <= n / 2,
            decode_pairs(s@.take(2 * i)) == Some(out@),
        decreases n / 2 - i,
    {
        let a = s[2 * i];
        let b = s[2 * i + 1];
        let t = Ghost(s@.take(2 * i + 2));
        proof {
            assert(t@.take(t@.len() - 2) =~= s@.take(2 * i));
            assert(t@[t@.len() - 2] == a);
            assert(t@[t@.len() - 1] == b);
        }
        let v = match hex_digit(b) {
            None => {
                proof {
                    lemma_decode_none_extends(s@, i + 1, (n / 2) as int);
                    assert(s@.take(n as int) =~= s@);
                }
                return None;
            },
            Some(lo) => match hex_digit(a) {
                Some(hi) => hi * 16 + lo,
                None => {
                    if a == '+' {
                        lo
                    } else {
                        proof {
                            lemma_decode_none_extends(s@, i + 1, (n / 2) as int);
                            assert(s@.take(n as int) =~= s@);
                        }
                        return None;
                    }
                },
            },
        };
        out.push(v);
        i = i + 1;
    }
    proof {
        assert(s@.take(n as int) =~= s@);
    }
    Some(out)
}

} // verus!
