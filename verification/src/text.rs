//! Decimal text of bytes and dotted-quad addresses: reading `a.b.c.d` and writing it back.
use vstd::prelude::*;

verus! {

/// `c` is an ASCII decimal digit.
pub open spec fn is_digit(c: char) -> bool {
    '0' <= c <= '9'
}

/// The value of an ASCII decimal digit.
pub open spec fn digit_value(c: char) -> int {
    c as int - '0' as int
}

/// All characters of `d` are decimal digits.
pub open spec fn all_digits(d: Seq<char>) -> bool {
    forall|i: int| 0 <= i < d.len() ==> #[trigger] is_digit(d[i])
}

/// The value of a string of decimal digits, read from the left.
pub open spec fn dec_value(d: Seq<char>) -> int
    decreases d.len(),
{
    if d.len() == 0 {
        0
    } else {
        10 * dec_value(d.drop_last()) + digit_value(d.last())
    }
}

/// The digits of `d`: `d` itself, or what follows a leading `+`.
pub open spec fn unsigned_digits(d: Seq<char>) -> Seq<char> {
    if d.len() > 0 && d[0] == '+' {
        d.drop_first()
    } else {
        d
    }
}

/// The byte that `d` denotes as an unsigned decimal number (an optional `+`, then at least
/// one digit, of value at most 255), if it denotes one.
pub open spec fn byte_of_text(d: Seq<char>) -> Option<u8> {
    let digits = unsigned_digits(d);
    if digits.len() > 0 && all_digits(digits) && dec_value(digits) <= 255 {
        Some(dec_value(digits) as u8)
    } else {
        None
    }
}

/// The pieces of `s` between dots, read from the left.
pub open spec fn parts_of(s: Seq<char>) -> Seq<Seq<char>>
    decreases s.len(),
{
    if s.len() == 0 {
        seq![Seq::<char>::empty()]
    } else {
        let p = parts_of(s.drop_last());
        if s.last() == '.' {
            p.push(Seq::empty())
        } else {
            p.update(p.len() - 1, p.last().push(s.last()))
        }
    }
}

/// The four bytes that the text `a.b.c.d` denotes, if it denotes four.
pub open spec fn quad_of_text(s: Seq<char>) -> Option<Seq<u8>> {
    let p = parts_of(s);
    if p.len() == 4 && (forall|i: int| 0 <= i < 4 ==> #[trigger] byte_of_text(p[i]) is Some) {
        Some(Seq::new(4, |i: int| byte_of_text(p[i])->Some_0))
    } else {
        None
    }
}

/// The decimal digits of `n`, without leading zeros (`"0"` for zero).
pub open spec fn dec_text(n: nat) -> Seq<char>
    decreases n,
{
    if n < 10 {
        seq![digit_char(n)]
    } else {
        dec_text(n / 10).push(digit_char(n % 10))
    }
}

/// The ASCII digit of value `d`.
pub open spec fn digit_char(d: nat) -> char {
    (d + '0' as nat) as char
}

/// `a.b.c.d`: the decimal texts of the bytes, joined by dots.
pub open spec fn dotted(b: Seq<u8>) -> Seq<char> {
    dec_text(b[0] as nat) + seq!['.'] + dec_text(b[1] as nat) + seq!['.'] + dec_text(b[2] as nat) + seq!['.']
        + dec_text(b[3] as nat)
}

proof fn lemma_parts_nonempty(s: Seq<char>)
    ensures
        parts_of(s).len() >= 1,
    decreases s.len(),
{
    if s.len() > 0 {
        lemma_parts_nonempty(s.drop_last());
    }
}

/// The decimal text of a number is a non-empty string of digits whose value is the number.
proof fn lemma_dec_text(n: nat)
    ensures
        dec_text(n).len() > 0,
        all_digits(dec_text(n)),
        dec_value(dec_text(n)) == n,
    decreases n,
{
    if n < 10 {
        let c = digit_char(n);
        assert(c as int == n + '0' as int);
        assert(dec_text(n).drop_last() =~= Seq::<char>::empty());
        assert(dec_value(Seq::<char>::empty()) == 0);
        assert(dec_text(n).last() == c);
        assert(digit_value(c) == n);
    } else {
        lemma_dec_text(n / 10);
        let c = digit_char(n % 10);
        assert(c as int == n % 10 + '0' as int);
        assert(dec_text(n).drop_last() =~= dec_text(n / 10));
        assert(dec_text(n).last() == c);
        assert(digit_value(c) == n % 10);
        assert(n == 10 * (n / 10) + n % 10);
        assert forall|i: int| 0 <= i < dec_text(n).len() implies #[trigger] is_digit(dec_text(n)[i]) by {
            if i < dec_text(n / 10).len() {
                assert(is_digit(dec_text(n / 10)[i]));
            }
        }
    }
}

/// Text without dots continues the last piece.
proof fn lemma_parts_append(a: Seq<char>, t: Seq<char>)
    requires
        forall|i: int| 0 <= i < t.len() ==> #[trigger] t[i] != '.',
    ensures
        parts_of(a + t) == parts_of(a).update(parts_of(a).len() - 1, parts_of(a).last() + t),
    decreases t.len(),
{
    lemma_parts_nonempty(a);
    if t.len() == 0 {
        assert(a + t =~= a);
        assert(parts_of(a).last() + t =~= parts_of(a).last());
        assert(parts_of(a).update(parts_of(a).len() - 1, parts_of(a).last()) =~= parts_of(a));
    } else {
        lemma_parts_append(a, t.drop_last());
        lemma_parts_nonempty(a + t.drop_last());
        assert((a + t).drop_last() =~= a + t.drop_last());
        assert((a + t).last() == t.last());
        assert(t[t.len() - 1] != '.');
        let p0 = parts_of(a);
        let p1 = parts_of(a + t.drop_last());
        assert(p1 == p0.update(p0.len() - 1, p0.last() + t.drop_last()));
        assert(parts_of(a + t) == p1.update(p1.len() - 1, p1.last().push(t.last())));
        assert(p1.last() == p0.last() + t.drop_last());
        assert(p1.len() == p0.len());
        assert((p0.last() + t.drop_last()).push(t.last()) =~= p0.last() + t);
        assert(p1.update(p1.len() - 1, p0.last() + t) =~= p0.update(p0.len() - 1, p0.last() + t));
        assert(parts_of(a + t) =~= parts_of(a).update(parts_of(a).len() - 1, parts_of(a).last() + t));
    }
}

/// A dot starts a new, empty piece.
proof fn lemma_parts_dot(a: Seq<char>)
    ensures
        parts_of(a + seq!['.']) == parts_of(a).push(Seq::empty()),
{
    assert((a + seq!['.']).drop_last() =~= a);
}

/// The decimal text of a byte denotes the byte.
proof fn lemma_byte_of_dec_text(b: u8)
    ensures
        byte_of_text(dec_text(b as nat)) == Some(b),
        forall|i: int| 0 <= i < dec_text(b as nat).len() ==> #[trigger] dec_text(b as nat)[i] != '.',
{
    lemma_dec_text(b as nat);
    let d = dec_text(b as nat);
    assert(is_digit(d[0]));
    assert(unsigned_digits(d) == d);
    assert forall|i: int| 0 <= i < d.len() implies #[trigger] d[i] != '.' by {
        assert(is_digit(d[i]));
    }
}

/// Reading the text `a.b.c.d` of four bytes gives the four bytes back.
pub proof fn lemma_dotted_round_trip(b: Seq<u8>)
    requires
        b.len() == 4,
    ensures
        quad_of_text(dotted(b)) == Some(b),
{
    let d0 = dec_text(b[0] as nat);
    let d1 = dec_text(b[1] as nat);
    let d2 = dec_text(b[2] as nat);
    let d3 = dec_text(b[3] as nat);
    lemma_byte_of_dec_text(b[0]);
    lemma_byte_of_dec_text(b[1]);
    lemma_byte_of_dec_text(b[2]);
    lemma_byte_of_dec_text(b[3]);
    let e = Seq::<char>::empty();
    lemma_parts_append(e, d0);
    assert(e + d0 =~= d0);
    assert(parts_of(e) =~= seq![e]);
    assert(e + d0 == d0);
    assert(parts_of(d0) =~= seq![d0]);
    let s1 = d0 + seq!['.'];
    lemma_parts_dot(d0);
    let s2 = s1 + d1;
    lemma_parts_append(s1, d1);
    assert(parts_of(s2) =~= seq![d0, d1]);
    let s3 = s2 + seq!['.'];
    lemma_parts_dot(s2);
    let s4 = s3 + d2;
    lemma_parts_append(s3, d2);
    assert(parts_of(s4) =~= seq![d0, d1, d2]);
    let s5 = s4 + seq!['.'];
    lemma_parts_dot(s4);
    let s6 = s5 + d3;
    lemma_parts_append(s5, d3);
    assert(parts_of(s6) =~= seq![d0, d1, d2, d3]);
    assert(s6 == dotted(b));
    let p = parts_of(dotted(b));
    assert(byte_of_text(p[0]) == Some(b[0]));
    assert(byte_of_text(p[1]) == Some(b[1]));
    assert(byte_of_text(p[2]) == Some(b[2]));
    assert(byte_of_text(p[3]) == Some(b[3]));
    assert(Seq::new(4, |i: int| byte_of_text(p[i])->Some_0) =~= b);
}

/// The byte that the characters denote as an unsigned decimal number, if they denote one.
pub fn byte_from_chars(d: &Vec<char>) -> (r: Option<u8>)
    ensures
        r == byte_of_text(d@),
{
    let mut start: usize = 0;
    if d.len() > 0 && d[0] == '+' {
        start = 1;
    }
    let ghost digits = unsigned_digits(d@);
    proof {
        assert(digits =~= d@.subrange(start as int, d@.len() as int));
    }
    if start >= d.len() {
        return None;
    }
    let mut value: u32 = 0;
    let mut i: usize = start;
    while i < d.len()
        invariant
            start <= i <= d@.len(),
            digits == unsigned_digits(d@),
            digits =~= d@.subrange(start as int, d@.len() as int),
            all_digits(d@.subrange(start as int, i as int)),
            value == dec_value(d@.subrange(start as int, i as int)),
            value <= 255,
        decreases d@.len() - i,
    {
        let c = d[i];
        if !('0' <= c && c <= '9') {
            proof {
                assert(digits[i - start] == c);
                assert(!is_digit(digits[i - start]));
                assert(!all_digits(digits));
                assert(unsigned_digits(d@) == digits);
                assert(byte_of_text(d@) is None);
            }
            return None;
        }
        let dv = (c as u32) - ('0' as u32);
        proof {
            let next = d@.subrange(start as int, i + 1);
            assert(next.drop_last() =~= d@.subrange(start as int, i as int));
            assert(next.last() == c);
        }
        if value * 10 + dv > 255 {
            proof {
                if all_digits(digits) {
                    lemma_dec_value_grows(digits, (i + 1 - start) as nat);
                    assert(digits.subrange(0, (i + 1 - start) as int) =~= d@.subrange(start as int, i + 1));
                }
            }
            return None;
        }
        value = value * 10 + dv;
        i = i + 1;
    }
    proof {
        assert(d@.subrange(start as int, d@.len() as int) =~= digits);
    }
    Some(value as u8)
}

/// Digits keep a number at least as large as any of its prefixes.
proof fn lemma_dec_value_grows(d: Seq<char>, k: nat)
    requires
        k <= d.len(),
        all_digits(d),
    ensures
        dec_value(d.subrange(0, k as int)) <= dec_value(d),
        dec_value(d) >= 0,
    decreases d.len(),
{
    if d.len() > 0 {
        assert(is_digit(d.last()));
        assert(all_digits(d.drop_last()));
        if k < d.len() {
            assert(d.drop_last().subrange(0, k as int) =~= d.subrange(0, k as int));
            lemma_dec_value_grows(d.drop_last(), k);
        } else {
            assert(d.subrange(0, k as int) =~= d);
            lemma_dec_value_grows(d.drop_last(), 0);
        }
    }
}

/// The pieces of the text between dots.
pub fn split_dots(s: &str) -> (r: Vec<Vec<char>>)
    ensures
        r@.map_values(|v: Vec<char>| v@) == parts_of(s@),
{
    let n = s.unicode_len();
    let mut parts: Vec<Vec<char>> = Vec::new();
    parts.push(Vec::new());
    let mut i: usize = 0;
    proof {
        assert(s@.subrange(0, 0) =~= Seq::<char>::empty());
        assert(parts@.map_values(|v: Vec<char>| v@) =~= seq![Seq::<char>::empty()]);
    }
    while i < n
        invariant
            n == s@.len(),
            i <= n,
            parts@.map_values(|v: Vec<char>| v@) == parts_of(s@.subrange(0, i as int)),
            parts@.len() >= 1,
        decreases n - i,
    {
        let c = s.get_char(i);
        let ghost before = parts@.map_values(|v: Vec<char>| v@);
        proof {
            assert(s@.subrange(0, i + 1).drop_last() =~= s@.subrange(0, i as int));
        }
        if c == '.' {
            parts.push(Vec::new());
            proof {
                assert(parts@.map_values(|v: Vec<char>| v@) =~= before.push(Seq::empty()));
            }
        } else {
            let mut last = parts.pop().unwrap();
            last.push(c);
            parts.push(last);
            proof {
                assert(parts@.map_values(|v: Vec<char>| v@) =~= before.update(before.len() - 1, before.last().push(c)));
            }
        }
        i = i + 1;
    }
    proof {
        assert(s@.subrange(0, n as int) =~= s@);
    }
    parts
}

/// The paths of a list written `['a', 'b']`: the pieces between commas, brackets and quotes
/// dropped.
pub open spec fn path_pieces(s: Seq<char>) -> Seq<Seq<char>>
    decreases s.len(),
{
    if s.len() == 0 {
        seq![Seq::<char>::empty()]
    } else {
        let p = path_pieces(s.drop_last());
        let c = s.last();
        if c == '[' || c == ']' || c == '\'' {
            p
        } else if c == ',' {
            p.push(Seq::empty())
        } else {
            p.update(p.len() - 1, p.last().push(c))
        }
    }
}

proof fn lemma_path_pieces_nonempty(s: Seq<char>)
    ensures
        path_pieces(s).len() >= 1,
    decreases s.len(),
{
    if s.len() > 0 {
        lemma_path_pieces_nonempty(s.drop_last());
    }
}

/// The paths of a list written `['a', 'b']`: the text without its brackets, cut at each
/// comma, each piece without its quotes.
pub fn process_active_paths(activepaths: &str) -> (r: Vec<String>)
    ensures
        r@.map_values(|t: String| t@) == path_pieces(activepaths@),
{
    let n = activepaths.unicode_len();
    let mut parts: Vec<String> = Vec::new();
    parts.push(String::new());
    let mut i: usize = 0;
    proof {
        assert(activepaths@.subrange(0, 0) =~= Seq::<char>::empty());
        assert(parts@.map_values(|t: String| t@) =~= seq![Seq::<char>::empty()]);
    }
    while i < n
        invariant
            n == activepaths@.len(),
            i <= n,
            parts@.map_values(|t: String| t@) == path_pieces(activepaths@.subrange(0, i as int)),
            parts@.len() >= 1,
        decreases n - i,
    {
        let c = activepaths.get_char(i);
        let ghost before = parts@.map_values(|t: String| t@);
        proof {
            assert(activepaths@.subrange(0, i + 1).drop_last() =~= activepaths@.subrange(0, i as int));
            lemma_path_pieces_nonempty(activepaths@.subrange(0, i as int));
        }
        if c == '[' || c == ']' || c == '\'' {
        } else if c == ',' {
            parts.push(String::new());
            proof {
                assert(parts@.map_values(|t: String| t@) =~= before.push(Seq::empty()));
            }
        } else {
            let ghost full = parts@;
            let mut last = parts.pop().unwrap();
            let ghost lv = last@;
            proof {
                assert(lv == before.last());
            }
            let piece = activepaths.substring_char(i, i + 1);
            proof {
                assert(piece@ =~= seq![c]);
            }
            last.append(piece);
            proof {
                assert(last@ =~= lv.push(c));
            }
            parts.push(last);
            proof {
                assert(parts@ == full.drop_last().push(last));
                assert(parts@.map_values(|t: String| t@) =~= before.update(before.len() - 1, before.last().push(c)));
            }
        }
        i = i + 1;
    }
    proof {
        assert(activepaths@.subrange(0, n as int) =~= activepaths@);
    }
    parts
}

/// The four bytes of a dotted-quad text, if it denotes four.
pub fn quad_from_text(s: &str) -> (r: Option<[u8; 4]>)
    ensures
        match quad_of_text(s@) {
            Some(q) => r matches Some(b) && b@ == q,
            None => r is None,
        },
{
    let parts = split_dots(s);
    let ghost p = parts_of(s@);
    proof {
        assert(parts@.len() == p.len());
    }
    if parts.len() != 4 {
        return None;
    }
    let mut bytes: [u8; 4] = [0u8; 4];
    let mut i: usize = 0;
    while i < 4
        invariant
            parts@.len() == 4,
            p == parts_of(s@),
            p.len() == 4,
            parts@.map_values(|v: Vec<char>| v@) == p,
            i <= 4,
            forall|k: int| 0 <= k < i ==> #[trigger] byte_of_text(p[k]) == Some(bytes@[k]),
        decreases 4 - i,
    {
        proof {
            assert(parts@[i as int]@ == p[i as int]);
        }
        match byte_from_chars(&parts[i]) {
            Some(b) => {
                bytes[i] = b;
            },
            None => {
                proof {
                    assert(byte_of_text(p[i as int]) is None);
                }
                return None;
            },
        }
        i = i + 1;
    }
    proof {
        assert(bytes@ =~= Seq::new(4, |k: int| byte_of_text(p[k])->Some_0));
    }
    Some(bytes)
}

/// The decimal text of a byte.
pub fn byte_text(b: u8) -> (r: String)
    ensures
        r@ == dec_text(b as nat),
{
    let digits = "0123456789";
    proof {
        reveal_strlit("0123456789");
    }
    let mut r = String::new();
    if b >= 100 {
        let h = (b / 100) as usize;
        r.append(digits.substring_char(h, h + 1));
    }
    if b >= 10 {
        let t = ((b / 10) % 10) as usize;
        r.append(digits.substring_char(t, t + 1));
    }
    let u = (b % 10) as usize;
    r.append(digits.substring_char(u, u + 1));
    proof {
        let n = b as nat;
        if n >= 100 {
            assert(dec_text(n / 100) == seq![digit_char(n / 100)]);
            assert(dec_text(n / 10) == dec_text(n / 100).push(digit_char((n / 10) % 10)));
        } else if n >= 10 {
            assert(dec_text(n / 10) == seq![digit_char(n / 10)]);
        }
    }
    r
}

/// `a.b.c.d`, the decimal texts of the four bytes joined by dots.
pub fn dotted_text(b: [u8; 4]) -> (r: String)
    ensures
        r@ == dotted(b@),
{
    let dot = ".";
    proof {
        reveal_strlit(".");
    }
    let mut r = byte_text(b[0]);
    r.append(dot);
    let t1 = byte_text(b[1]);
    r.append(t1.as_str());
    r.append(dot);
    let t2 = byte_text(b[2]);
    r.append(t2.as_str());
    r.append(dot);
    let t3 = byte_text(b[3]);
    r.append(t3.as_str());
    r
}


/// The decimal text of a 32-bit number.
pub fn u32_text(n: u32) -> (r: String)
    ensures
        r@ == dec_text(n as nat),
    decreases n,
{
    let digits = "0123456789";
    proof {
        reveal_strlit("0123456789");
    }
    if n < 10 {
        let d = n as usize;
        let mut r = String::new();
        r.append(digits.substring_char(d, d + 1));
        r
    } else {
        let mut r = u32_text(n / 10);
        let d = (n % 10) as usize;
        r.append(digits.substring_char(d, d + 1));
        r
    }
}

} // verus!
