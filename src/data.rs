use vstd::prelude::*;

verus! {

/// The lowercase hex digit of `n < 16`.
pub open spec fn hex_digit(n: int) -> char {
    if n < 10 {
        (('0' as u8) + n) as u8 as char
    } else {
        (('a' as u8) + n - 10) as u8 as char
    }
}

/// Two lowercase hex digits per byte, high nibble first.
pub open spec fn hex_of(b: Seq<u8>) -> Seq<char>
    decreases b.len(),
{
    if b.len() == 0 {
        Seq::empty()
    } else {
        hex_of(b.drop_last()) + seq![hex_digit(b.last() as int / 16), hex_digit(b.last() as int % 16)]
    }
}

/// The character of the standard base64 alphabet for `n < 64`.
pub open spec fn b64_digit(n: int) -> char {
    if n < 26 {
        (('A' as u8) + n) as u8 as char
    } else if n < 52 {
        (('a' as u8) + n - 26) as u8 as char
    } else if n < 62 {
        (('0' as u8) + n - 52) as u8 as char
    } else if n == 62 {
        '+'
    } else {
        '/'
    }
}

/// The four characters for up to three bytes `x`, `y`, `z`, of which `n`
/// are present; missing places are `=`.
pub open spec fn b64_group(x: int, y: int, z: int, n: int) -> Seq<char> {
    seq![
        b64_digit(x / 4),
        b64_digit((x % 4) * 16 + y / 16),
        if n >= 2 { b64_digit((y % 16) * 4 + z / 64) } else { '=' },
        if n >= 3 { b64_digit(z % 64) } else { '=' },
    ]
}

/// Standard base64 with padding.
pub open spec fn base64_of(b: Seq<u8>) -> Seq<char>
    decreases b.len(),
{
    if b.len() == 0 {
        Seq::empty()
    } else if b.len() == 1 {
        b64_group(b[0] as int, 0, 0, 1)
    } else if b.len() == 2 {
        b64_group(b[0] as int, b[1] as int, 0, 2)
    } else {
        b64_group(b[0] as int, b[1] as int, b[2] as int, 3) + base64_of(b.skip(3))
    }
}

fn hex_char(n: u8) -> (r: char)
    requires
        n < 16,
    ensures
        r == hex_digit(n as int),
{
    if n < 10 {
        (48u8 + n) as char
    } else {
        (97u8 + n - 10) as char
    }
}

fn b64_char(n: u8) -> (r: char)
    requires
        n < 64,
    ensures
        r == b64_digit(n as int),
{
    if n < 26 {
        (65u8 + n) as char
    } else if n < 52 {
        (97u8 + n - 26) as char
    } else if n < 62 {
        (48u8 + n - 52) as char
    } else if n == 62 {
        '+'
    } else {
        '/'
    }
}

/// Lowercase hex text of `b`.
pub fn encode_hex(b: &Vec<u8>) -> (r: Vec<char>)
    ensures
        r@ == hex_of(b@),
{
    let mut out: Vec<char> = Vec::new();
    let mut i: usize = 0;
    while i < b.len()
        invariant
            i <= b@.len(),
            out@ == hex_of(b@.take(i as int)),
        decreases b@.len() - i,
    {
        out.push(hex_char(b[i] / 16));
        out.push(hex_char(b[i] % 16));
        i = i + 1;
        assert(b@.take(i as int).drop_last() == b@.take(i - 1));
    }
    assert(b@.take(b@.len() as int) == b@);
    out
}

/// Standard padded base64 text of `b`.
pub fn encode_base64(b: &Vec<u8>) -> (r: Vec<char>)
    ensures
        r@ == base64_of(b@),
{
    let mut out: Vec<char> = Vec::new();
    let mut i: usize = 0;
    assert(b@.skip(0) == b@);
    while i < b.len()
        invariant
            i <= b@.len(),
            out@ + base64_of(b@.skip(i as int)) == base64_of(b@),
        decreases b@.len() - i,
    {
        let n = b.len() - i;
        let x = b[i];
        let y: u8 = if n >= 2 { b[i + 1] } else { 0 };
        let z: u8 = if n >= 3 { b[i + 2] } else { 0 };
        let ghost rest = b@.skip(i as int);
        let ghost before = out@;
        assert(rest[0] == x);
        assert(n >= 2 ==> rest[1] == y);
        assert(n >= 3 ==> rest[2] == z);
        let ghost k: int = if n >= 3 { 3 } else { n as int };
        out.push(b64_char(x / 4));
        out.push(b64_char((x % 4) * 16 + y / 16));
        if n >= 2 {
            out.push(b64_char((y % 16) * 4 + z / 64));
        } else {
            out.push('=');
        }
        if n >= 3 {
            out.push(b64_char(z % 64));
            assert(out@ == before + b64_group(x as int, y as int, z as int, 3));
            assert(rest.skip(3) == b@.skip(i + 3));
            i = i + 3;
        } else {
            out.push('=');
            assert(out@ =~= before + b64_group(x as int, y as int, z as int, n as int));
            assert(base64_of(rest) == b64_group(x as int, y as int, z as int, n as int));
            i = b.len();
            assert(b@.skip(i as int) == Seq::<u8>::empty());
        }
    }
    assert(b@.skip(i as int) == Seq::<u8>::empty());
    out
}

/// The value of a lowercase hex digit; 0 for any other character.
pub open spec fn hex_val(c: char) -> int {
    if '0' <= c && c <= '9' {
        c as int - '0' as int
    } else if 'a' <= c && c <= 'f' {
        c as int - 'a' as int + 10
    } else {
        0
    }
}

/// Reads `t` as pairs of hex digits; a trailing odd digit is dropped.  Only
/// text that `hex_of` produces reads back to the same text.
pub open spec fn hex_decode(t: Seq<char>) -> Seq<u8>
    decreases t.len(),
{
    if t.len() < 2 {
        Seq::empty()
    } else {
        seq![(hex_val(t[0]) * 16 + hex_val(t[1])) as u8] + hex_decode(t.skip(2))
    }
}

/// The value of a base64 digit; 0 for any other character.
pub open spec fn b64_val(c: char) -> int {
    if 'A' <= c && c <= 'Z' {
        c as int - 'A' as int
    } else if 'a' <= c && c <= 'z' {
        c as int - 'a' as int + 26
    } else if '0' <= c && c <= '9' {
        c as int - '0' as int + 52
    } else if c == '+' {
        62
    } else if c == '/' {
        63
    } else {
        0
    }
}

/// The bytes of one group of four base64 characters.
pub open spec fn b64_ungroup(a: char, b: char, c: char, d: char) -> Seq<u8> {
    let x = (b64_val(a) * 4 + b64_val(b) / 16) as u8;
    let y = ((b64_val(b) % 16) * 16 + b64_val(c) / 4) as u8;
    let z = ((b64_val(c) % 4) * 64 + b64_val(d)) as u8;
    if c == '=' {
        seq![x]
    } else if d == '=' {
        seq![x, y]
    } else {
        seq![x, y, z]
    }
}

/// Reads `t` as groups of four base64 characters; a trailing partial group
/// is dropped.  Only text that `base64_of` produces reads back to the same
/// text.
pub open spec fn base64_decode(t: Seq<char>) -> Seq<u8>
    decreases t.len(),
{
    if t.len() < 4 {
        Seq::empty()
    } else {
        b64_ungroup(t[0], t[1], t[2], t[3]) + base64_decode(t.skip(4))
    }
}

fn hex_value(c: char) -> (r: u8)
    ensures
        r as int == hex_val(c),
{
    if '0' <= c && c <= '9' {
        (c as u32 - '0' as u32) as u8
    } else if 'a' <= c && c <= 'f' {
        (c as u32 - 'a' as u32 + 10) as u8
    } else {
        0
    }
}

fn b64_value(c: char) -> (r: u8)
    ensures
        r as int == b64_val(c),
{
    if 'A' <= c && c <= 'Z' {
        (c as u32 - 'A' as u32) as u8
    } else if 'a' <= c && c <= 'z' {
        (c as u32 - 'a' as u32 + 26) as u8
    } else if '0' <= c && c <= '9' {
        (c as u32 - '0' as u32 + 52) as u8
    } else if c == '+' {
        62
    } else if c == '/' {
        63
    } else {
        0
    }
}

fn chars_equal(a: &Vec<char>, b: &Vec<char>) -> (r: bool)
    ensures
        r == (a@ == b@),
{
    if a.len() != b.len() {
        return false;
    }
    let mut i: usize = 0;
    while i < a.len()
        invariant
            i <= a@.len(),
            a@.len() == b@.len(),
            forall|k: int| 0 <= k < i ==> a@[k] == b@[k],
        decreases a@.len() - i,
    {
        if a[i] != b[i] {
            return false;
        }
        i = i + 1;
    }
    assert(a@ =~= b@);
    true
}

/// The bytes that hex text `t` encodes, or `None` where `t` is not the
/// lowercase hex of any bytes.  Hex is written in lowercase only, and only
/// lowercase is read: text with an upper-case digit is a bad encoding.
pub fn decode_hex(t: &Vec<char>) -> (r: Option<Vec<u8>>)
    ensures
        match r {
            Some(b) => b@ == hex_decode(t@) && hex_of(b@) == t@,
            None => hex_of(hex_decode(t@)) != t@,
        },
{
    let mut out: Vec<u8> = Vec::new();
    let mut i: usize = 0;
    assert(t@.skip(0) == t@);
    while t.len() - i >= 2
        invariant
            i <= t@.len(),
            out@ + hex_decode(t@.skip(i as int)) == hex_decode(t@),
        decreases t@.len() - i,
    {
        let hi = hex_value(t[i]);
        let lo = hex_value(t[i + 1]);
        assert(t@.skip(i as int).skip(2) == t@.skip(i + 2));
        out.push(hi * 16 + lo);
        i = i + 2;
    }
    assert(hex_decode(t@.skip(i as int)) == Seq::<u8>::empty());
    assert(out@ == hex_decode(t@));
    let back = encode_hex(&out);
    if chars_equal(&back, t) {
        Some(out)
    } else {
        None
    }
}

/// The bytes that base64 text `t` encodes, or `None` where `t` is not the
/// standard padded base64 of any bytes.
pub fn decode_base64(t: &Vec<char>) -> (r: Option<Vec<u8>>)
    ensures
        match r {
            Some(b) => b@ == base64_decode(t@) && base64_of(b@) == t@,
            None => base64_of(base64_decode(t@)) != t@,
        },
{
    let mut out: Vec<u8> = Vec::new();
    let mut i: usize = 0;
    assert(t@.skip(0) == t@);
    while t.len() - i >= 4
        invariant
            i <= t@.len(),
            out@ + base64_decode(t@.skip(i as int)) == base64_decode(t@),
        decreases t@.len() - i,
    {
        let a = b64_value(t[i]);
        let b = b64_value(t[i + 1]);
        let c = b64_value(t[i + 2]);
        let d = b64_value(t[i + 3]);
        let ghost before = out@;
        out.push(a * 4 + b / 16);
        if t[i + 2] != '=' {
            out.push((b % 16) * 16 + c / 4);
            if t[i + 3] != '=' {
                out.push((c % 4) * 64 + d);
            }
        }
        assert(out@ =~= before + b64_ungroup(t@[i as int], t@[i + 1], t@[i + 2], t@[i + 3]));
        assert(t@.skip(i as int).skip(4) == t@.skip(i + 4));
        i = i + 4;
    }
    assert(base64_decode(t@.skip(i as int)) == Seq::<u8>::empty());
    assert(out@ == base64_decode(t@));
    let back = encode_base64(&out);
    if chars_equal(&back, t) {
        Some(out)
    } else {
        None
    }
}

proof fn lemma_hex_digit_val(n: int)
    requires
        0 <= n < 16,
    ensures
        hex_val(hex_digit(n)) == n,
{
}

proof fn lemma_hex_of_front(b: Seq<u8>)
    requires
        b.len() > 0,
    ensures
        hex_of(b) == seq![hex_digit(b[0] as int / 16), hex_digit(b[0] as int % 16)] + hex_of(
            b.drop_first(),
        ),
    decreases b.len(),
{
    if b.len() == 1 {
        assert(b.drop_last() =~= Seq::<u8>::empty());
        assert(b.drop_first() =~= Seq::<u8>::empty());
    } else {
        lemma_hex_of_front(b.drop_last());
        assert(b.drop_first().drop_last() =~= b.drop_last().drop_first());
        assert(b.drop_last()[0] == b[0]);
        assert(b.drop_first().last() == b.last());
    }
}

/// Hex text reads back to the bytes it was written from.
pub proof fn lemma_hex_round_trip(b: Seq<u8>)
    ensures
        hex_decode(hex_of(b)) == b,
    decreases b.len(),
{
    if b.len() > 0 {
        lemma_hex_of_front(b);
        let t = hex_of(b);
        lemma_hex_digit_val(b[0] as int / 16);
        lemma_hex_digit_val(b[0] as int % 16);
        assert(t.skip(2) =~= hex_of(b.drop_first()));
        lemma_hex_round_trip(b.drop_first());
        assert(hex_decode(t) =~= b);
    }
}

proof fn lemma_b64_digit_val(n: int)
    requires
        0 <= n < 64,
    ensures
        b64_val(b64_digit(n)) == n,
        b64_digit(n) != '=',
{
}

proof fn lemma_b64_group_round_trip(x: u8, y: u8, z: u8, n: int)
    requires
        1 <= n <= 3,
        n < 2 ==> y == 0,
        n < 3 ==> z == 0,
    ensures
        ({
            let g = b64_group(x as int, y as int, z as int, n);
            b64_ungroup(g[0], g[1], g[2], g[3]) == if n == 1 {
                seq![x]
            } else if n == 2 {
                seq![x, y]
            } else {
                seq![x, y, z]
            }
        }),
{
    let (xi, yi, zi) = (x as int, y as int, z as int);
    let d0 = xi / 4;
    let d1 = (xi % 4) * 16 + yi / 16;
    let d2 = (yi % 16) * 4 + zi / 64;
    let d3 = zi % 64;
    lemma_b64_digit_val(d0);
    lemma_b64_digit_val(d1);
    lemma_b64_digit_val(d2);
    lemma_b64_digit_val(d3);
    assert(d0 * 4 + d1 / 16 == xi);
    assert((d1 % 16) * 16 + d2 / 4 == yi);
    assert((d2 % 4) * 64 + d3 == zi);
    let g = b64_group(xi, yi, zi, n);
    if n == 1 {
        assert(b64_ungroup(g[0], g[1], g[2], g[3]) =~= seq![x]);
    } else if n == 2 {
        assert(b64_ungroup(g[0], g[1], g[2], g[3]) =~= seq![x, y]);
    } else {
        assert(b64_ungroup(g[0], g[1], g[2], g[3]) =~= seq![x, y, z]);
    }
}

/// Base64 text reads back to the bytes it was written from.
pub proof fn lemma_base64_round_trip(b: Seq<u8>)
    ensures
        base64_decode(base64_of(b)) == b,
    decreases b.len(),
{
    let t = base64_of(b);
    if b.len() == 0 {
    } else if b.len() == 1 {
        lemma_b64_group_round_trip(b[0], 0, 0, 1);
        assert(t.skip(4) =~= Seq::<char>::empty());
        assert(base64_decode(t.skip(4)) == Seq::<u8>::empty());
        assert(base64_decode(t) =~= b);
    } else if b.len() == 2 {
        lemma_b64_group_round_trip(b[0], b[1], 0, 2);
        assert(t.skip(4) =~= Seq::<char>::empty());
        assert(base64_decode(t.skip(4)) == Seq::<u8>::empty());
        assert(base64_decode(t) =~= b);
    } else {
        lemma_b64_group_round_trip(b[0], b[1], b[2], 3);
        let g = b64_group(b[0] as int, b[1] as int, b[2] as int, 3);
        assert(t.skip(4) =~= base64_of(b.skip(3)));
        assert(t[0] == g[0] && t[1] == g[1] && t[2] == g[2] && t[3] == g[3]);
        lemma_base64_round_trip(b.skip(3));
        assert(base64_decode(t) =~= b);
    }
}

} // verus!
