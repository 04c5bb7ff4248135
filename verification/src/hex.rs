//! Hex dumps of texts and reading them back: whitespace-separated tokens in base 16.
use vstd::prelude::*;

use crate::text::{byte_char, low_byte, push_char};

verus! {

// ---------------------------------------------------------------------------
// Whitespace and tokens
// ---------------------------------------------------------------------------

/// The characters with the Unicode `White_Space` property.
pub open spec fn is_white_space(c: char) -> bool {
    let x = c as int;
    ||| 0x09 <= x <= 0x0D
    ||| x == 0x20
    ||| x == 0x85
    ||| x == 0xA0
    ||| x == 0x1680
    ||| 0x2000 <= x <= 0x200A
    ||| x == 0x2028
    ||| x == 0x2029
    ||| x == 0x202F
    ||| x == 0x205F
    ||| x == 0x3000
}

/// Tells whether `c` has the Unicode `White_Space` property.
pub fn char_is_white_space(c: char) -> (b: bool)
    ensures
        b == is_white_space(c),
{
    let x: u32 = c as u32;
    (0x09 <= x && x <= 0x0D) || x == 0x20 || x == 0x85 || x == 0xA0 || x == 0x1680 || (0x2000 <= x
        && x <= 0x200A) || x == 0x2028 || x == 0x2029 || x == 0x202F || x == 0x205F || x == 0x3000
}

/// The maximal runs of non-whitespace characters of `s`, in order.
/// Each character either ends the text so far in whitespace (nothing changes), extends the
/// last run (when the character before it is not whitespace), or starts a new run.
pub open spec fn split_whitespace(s: Seq<char>) -> Seq<Seq<char>>
    decreases s.len(),
{
    if s.len() == 0 {
        Seq::empty()
    } else {
        let t = split_whitespace(s.drop_last());
        let c = s.last();
        if is_white_space(c) {
            t
        } else if s.len() >= 2 && !is_white_space(s[s.len() - 2]) {
            t.update(t.len() - 1, t.last().push(c))
        } else {
            t.push(seq![c])
        }
    }
}

/// A text that ends in a non-whitespace character has a run, and its last run ends in that character.
pub proof fn lemma_split_last(s: Seq<char>)
    requires
        s.len() > 0,
        !is_white_space(s.last()),
    ensures
        split_whitespace(s).len() > 0,
        split_whitespace(s).len() == split_whitespace(s.drop_last()).len() + (if s.len() >= 2
            && !is_white_space(s[s.len() - 2]) {
            0int
        } else {
            1int
        }),
    decreases s.len(),
{
    if s.len() >= 2 && !is_white_space(s[s.len() - 2]) {
        lemma_split_last(s.drop_last());
    }
}

// ---------------------------------------------------------------------------
// Hexadecimal numbers
// ---------------------------------------------------------------------------

/// The value of a hexadecimal digit, either case.
pub open spec fn hex_digit_value(c: char) -> Option<int> {
    let x = c as int;
    if 48 <= x <= 57 {
        Some(x - 48)
    } else if 97 <= x <= 102 {
        Some(x - 87)
    } else if 65 <= x <= 70 {
        Some(x - 55)
    } else {
        None
    }
}

/// Every character of `s` is a hexadecimal digit.
pub open spec fn all_hex_digits(s: Seq<char>) -> bool {
    forall|k: int| 0 <= k < s.len() ==> #[trigger] hex_digit_value(s[k]) is Some
}

/// The value of a string of hexadecimal digits, most significant first.
pub open spec fn hex_value(s: Seq<char>) -> int
    decreases s.len(),
{
    if s.len() == 0 {
        0
    } else {
        hex_value(s.drop_last()) * 16 + match hex_digit_value(s.last()) {
            Some(d) => d,
            None => 0,
        }
    }
}

/// The digits of a number: one leading `+` is dropped.
pub open spec fn hex_body(s: Seq<char>) -> Seq<char> {
    if s.len() > 0 && s[0] == '+' {
        s.drop_first()
    } else {
        s
    }
}

/// A byte written in base 16, as `u8::from_str_radix(s, 16)` reads it: an optional `+`,
/// then at least one hexadecimal digit, with a value below 256. `None` for anything else.
pub open spec fn parse_hex_u8(s: Seq<char>) -> Option<u8> {
    let d = hex_body(s);
    if d.len() > 0 && all_hex_digits(d) && hex_value(d) < 256 {
        Some(hex_value(d) as u8)
    } else {
        None
    }
}

proof fn lemma_hex_value_nonneg(s: Seq<char>)
    ensures
        hex_value(s) >= 0,
    decreases s.len(),
{
    if s.len() > 0 {
        lemma_hex_value_nonneg(s.drop_last());
    }
}

/// The value of the hexadecimal digit `c`.
fn hex_digit_of(c: char) -> (r: Option<u32>)
    ensures
        r matches Some(v) ==> hex_digit_value(c) == Some(v as int) && v < 16,
        r is None ==> hex_digit_value(c) is None,
{
    let x: u32 = c as u32;
    if 48 <= x && x <= 57 {
        Some(x - 48)
    } else if 97 <= x && x <= 102 {
        Some(x - 87)
    } else if 65 <= x && x <= 70 {
        Some(x - 55)
    } else {
        None
    }
}

/// Reads a byte written in base 16, as `u8::from_str_radix(tok, 16)` does.
pub fn parse_hex_token(tok: &Vec<char>) -> (r: Option<u8>)
    ensures
        r == parse_hex_u8(tok@),
{
    let n = tok.len();
    let mut start: usize = 0;
    if n > 0 && tok[0] == '+' {
        start = 1;
    }
    let ghost d = hex_body(tok@);
    assert(d =~= tok@.subrange(start as int, n as int));
    if start == n {
        return None;
    }
    let mut acc: u32 = 0;
    let mut big = false;
    for k in start..n
        invariant
            d == tok@.subrange(start as int, n as int),
            d == hex_body(tok@),
            n == tok@.len(),
            start <= n,
            all_hex_digits(d.take(k - start)),
            big <==> hex_value(d.take(k - start)) > 255,
            !big ==> acc == hex_value(d.take(k - start)),
            acc <= 255,
    {
        let ghost p = d.take(k - start);
        let ghost q = d.take(k + 1 - start);
        assert(q.drop_last() =~= p);
        assert(q.last() == tok@[k as int]);
        match hex_digit_of(tok[k]) {
            None => {
                assert(!all_hex_digits(d) && hex_digit_value(d[k - start]) is None);
                return None;
            },
            Some(v) => {
                proof {
                    lemma_hex_value_nonneg(p);
                }
                if !big {
                    let t = acc * 16 + v;
                    if t > 255 {
                        big = true;
                    } else {
                        acc = t;
                    }
                }
                assert(all_hex_digits(q)) by {
                    assert forall|i: int| 0 <= i < q.len() implies #[trigger] hex_digit_value(
                        q[i],
                    ) is Some by {
                        if i < p.len() {
                            assert(q[i] == p[i]);
                        }
                    }
                }
            },
        }
    }
    assert(d.take(n - start) =~= d);
    if big {
        None
    } else {
        Some(acc as u8)
    }
}

// ---------------------------------------------------------------------------
// Hex dumps
// ---------------------------------------------------------------------------

/// The upper-case hexadecimal digit for `n`, for `n` below 16.
pub open spec fn hex_digit_char(n: int) -> char {
    if n < 10 {
        (48 + n) as char
    } else {
        (55 + n) as char
    }
}

/// A byte as two upper-case hexadecimal digits and a space: the cell that `{:02X} ` prints.
pub open spec fn hex_cell(b: u8) -> Seq<char> {
    seq![hex_digit_char(b as int / 16), hex_digit_char(b as int % 16), ' ']
}

/// The hex dump of a text: one cell per character, of its low byte.
pub open spec fn hex_encode(s: Seq<char>) -> Seq<char>
    decreases s.len(),
{
    if s.len() == 0 {
        Seq::empty()
    } else {
        hex_encode(s.drop_last()) + hex_cell(s.last() as u8)
    }
}

fn hex_digit_char_of(n: u8) -> (c: char)
    requires
        n < 16,
    ensures
        c == hex_digit_char(n as int),
{
    if n < 10 {
        byte_char(48 + n)
    } else {
        byte_char(55 + n)
    }
}

/// Writes each character's low byte as two upper-case hexadecimal digits followed by a space.
pub fn as_hex(string: &str) -> (r: String)
    ensures
        r@ == hex_encode(string@),
{
    let mut res = String::new();
    for c in it: string.chars()
        invariant
            it.seq() == string@,
            res@ == hex_encode(string@.take(it.index() as int)),
    {
        let ghost idx = it.index();
        let b = low_byte(c);
        push_char(&mut res, hex_digit_char_of(b / 16));
        push_char(&mut res, hex_digit_char_of(b % 16));
        push_char(&mut res, ' ');
        assert(string@.take(idx + 1).drop_last() =~= string@.take(idx as int));
        assert(res@ =~= hex_encode(string@.take(idx + 1)));
    }
    assert(string@.take(string@.len() as int) =~= string@);
    res
}

// ---------------------------------------------------------------------------
// Reading hex dumps back
// ---------------------------------------------------------------------------


// ---------------------------------------------------------------------------

/// What each whitespace-separated token of `s` reads as in base 16.
pub open spec fn hex_tokens(s: Seq<char>) -> Seq<Option<u8>> {
    split_whitespace(s).map_values(|t: Seq<char>| parse_hex_u8(t))
}

/// Reads each whitespace-separated token of `string` as a byte in base 16.
pub fn parse_hex_tokens(string: &str) -> (r: Vec<Option<u8>>)
    ensures
        r@ == hex_tokens(string@),
{
    let mut res: Vec<Option<u8>> = Vec::new();
    let mut cur: Vec<char> = Vec::new();
    let mut in_tok = false;
    for c in it: string.chars()
        invariant
            it.seq() == string@,
            in_tok <==> (it.index() > 0 && !is_white_space(string@[it.index() - 1])),
            in_tok ==> {
                let t = split_whitespace(string@.take(it.index() as int));
                &&& t.len() > 0
                &&& t.last() == cur@
                &&& res@ == t.drop_last().map_values(|t: Seq<char>| parse_hex_u8(t))
            },
            !in_tok ==> res@ == hex_tokens(string@.take(it.index() as int)),
    {
        let ghost idx = it.index();
        let ghost p = string@.take(idx as int);
        let ghost q = string@.take(idx + 1);
        assert(q.drop_last() =~= p);
        assert(q.last() == c);
        let ws = char_is_white_space(c);
        if ws {
            if in_tok {
                let v = parse_hex_token(&cur);
                res.push(v);
                proof {
                    let t = split_whitespace(p);
                    assert(t.drop_last().push(t.last()) =~= t);
                    assert(res@ =~= t.map_values(|t: Seq<char>| parse_hex_u8(t)));
                }
                cur = Vec::new();
                in_tok = false;
            }
        } else {
            proof {
                lemma_split_last(q);
            }
            if in_tok {
                cur.push(c);
                proof {
                    let t = split_whitespace(p);
                    let u = split_whitespace(q);
                    assert(q[q.len() - 2] == string@[idx - 1]);
                    assert(u == t.update(t.len() - 1, t.last().push(c)));
                    assert(u.drop_last() =~= t.drop_last());
                }
            } else {
                cur = Vec::new();
                cur.push(c);
                proof {
                    let t = split_whitespace(p);
                    let u = split_whitespace(q);
                    if idx > 0 {
                        assert(q[q.len() - 2] == string@[idx - 1]);
                    }
                    assert(u == t.push(seq![c]));
                    assert(u.drop_last() =~= t);
                    assert(cur@ =~= seq![c]);
                }
                in_tok = true;
            }
        }
    }
    assert(string@.take(string@.len() as int) =~= string@);
    if in_tok {
        let v = parse_hex_token(&cur);
        res.push(v);
        proof {
            let t = split_whitespace(string@);
            assert(t.drop_last().push(t.last()) =~= t);
            assert(res@ =~= t.map_values(|t: Seq<char>| parse_hex_u8(t)));
        }
    }
    res
}

/// The bytes that `as_num` reads: each token's value, or 0 where the token is not a byte in base 16.
pub open spec fn hex_bytes_or_zero(s: Seq<char>) -> Seq<u8> {
    hex_tokens(s).map_values(
        |o: Option<u8>|
            match o {
                Some(b) => b,
                None => 0u8,
            },
    )
}

/// Every token of `s` is a byte in base 16.
pub open spec fn all_tokens_hex(s: Seq<char>) -> bool {
    forall|k: int| 0 <= k < hex_tokens(s).len() ==> #[trigger] hex_tokens(s)[k] is Some
}

/// The characters that `as_char` reads: each token's byte as a character.
pub open spec fn hex_chars(s: Seq<char>) -> Seq<char> {
    hex_tokens(s).map_values(|o: Option<u8>| (o->0) as char)
}

/// Reads each whitespace-separated token as a byte in base 16; a token that is not one reads as 0.
pub fn as_num(string: &str) -> (r: Vec<u8>)
    ensures
        r@ == hex_bytes_or_zero(string@),
{
    let toks = parse_hex_tokens(string);
    let mut res: Vec<u8> = Vec::new();
    for k in 0..toks.len()
        invariant
            toks@ == hex_tokens(string@),
            res@ =~= hex_bytes_or_zero(string@).take(k as int),
    {
        let b = match toks[k] {
            Some(b) => b,
            None => 0u8,
        };
        res.push(b);
    }
    assert(hex_bytes_or_zero(string@).take(toks.len() as int) =~= hex_bytes_or_zero(string@));
    res
}

/// Reads each whitespace-separated token as a byte in base 16 and returns the bytes as characters.
pub fn as_char(string: &str) -> (r: String)
    requires
        all_tokens_hex(string@),
    ensures
        r@ == hex_chars(string@),
{
    let toks = parse_hex_tokens(string);
    let mut res = String::new();
    for k in 0..toks.len()
        invariant
            toks@ == hex_tokens(string@),
            all_tokens_hex(string@),
            res@ =~= hex_chars(string@).take(k as int),
    {
        assert(toks@[k as int] is Some);
        match toks[k] {
            Some(b) => push_char(&mut res, byte_char(b)),
            None => {},
        }
    }
    assert(hex_chars(string@).take(toks.len() as int) =~= hex_chars(string@));
    res
}

// ---------------------------------------------------------------------------
// Round trips
// ---------------------------------------------------------------------------

/// A character below 256 is its own low byte.
pub proof fn lemma_latin1_low_byte(c: char)
    requires
        (c as int) < 256,
    ensures
        (c as u8) as int == c as int,
        (c as u8) as char == c,
{
}

proof fn lemma_hex_digit_char(n: int)
    requires
        0 <= n < 16,
    ensures
        hex_digit_value(hex_digit_char(n)) == Some(n),
        !is_white_space(hex_digit_char(n)),
        hex_digit_char(n) != '+',
{
    if n < 10 {
        assert(((48 + n) as char) as int == 48 + n);
    } else {
        assert(((55 + n) as char) as int == 55 + n);
    }
}

/// A hex dump is empty or ends in a space.
proof fn lemma_hex_encode_ends(s: Seq<char>)
    ensures
        hex_encode(s).len() == 3 * s.len(),
        s.len() > 0 ==> hex_encode(s).last() == ' ',
    decreases s.len(),
{
    if s.len() > 0 {
        lemma_hex_encode_ends(s.drop_last());
    }
}

/// Appending two non-whitespace characters and a space after whitespace adds one run.
proof fn lemma_split_append_cell(x: Seq<char>, h: char, l: char)
    requires
        x.len() == 0 || is_white_space(x.last()),
        !is_white_space(h),
        !is_white_space(l),
    ensures
        split_whitespace(x + seq![h, l, ' ']) == split_whitespace(x).push(seq![h, l]),
{
    let y1 = x.push(h);
    let y2 = y1.push(l);
    let y3 = y2.push(' ');
    assert(x + seq![h, l, ' '] =~= y3);
    assert(y3.drop_last() =~= y2);
    assert(y2.drop_last() =~= y1);
    assert(y1.drop_last() =~= x);
    assert(is_white_space(' '));
    assert(split_whitespace(y3) == split_whitespace(y2));
    if x.len() > 0 {
        assert(y1[y1.len() - 2] == x.last());
    }
    assert(split_whitespace(y1) == split_whitespace(x).push(seq![h]));
    assert(y2[y2.len() - 2] == h);
    let t = split_whitespace(y1);
    assert(t.last() == seq![h]);
    assert(t.last().push(l) =~= seq![h, l]);
    assert(split_whitespace(y2) == t.update(t.len() - 1, t.last().push(l)));
    assert(split_whitespace(y2) =~= split_whitespace(x).push(seq![h, l]));
}

/// The runs of a hex dump are the two-digit cells, one per character.
pub open spec fn hex_pairs(s: Seq<char>) -> Seq<Seq<char>> {
    Seq::new(
        s.len(),
        |k: int|
            seq![hex_digit_char((s[k] as u8) as int / 16), hex_digit_char((s[k] as u8) as int % 16)],
    )
}

proof fn lemma_split_hex_encode(s: Seq<char>)
    ensures
        split_whitespace(hex_encode(s)) == hex_pairs(s),
    decreases s.len(),
{
    if s.len() > 0 {
        let p = s.drop_last();
        lemma_split_hex_encode(p);
        lemma_hex_encode_ends(p);
        let b = s.last() as u8;
        lemma_hex_digit_char(b as int / 16);
        lemma_hex_digit_char(b as int % 16);
        lemma_split_append_cell(
            hex_encode(p),
            hex_digit_char(b as int / 16),
            hex_digit_char(b as int % 16),
        );
        assert(hex_pairs(s) =~= hex_pairs(p).push(
            seq![hex_digit_char(b as int / 16), hex_digit_char(b as int % 16)],
        ));
    }
}

proof fn lemma_parse_pair(b: u8)
    ensures
        parse_hex_u8(seq![hex_digit_char(b as int / 16), hex_digit_char(b as int % 16)]) == Some(b),
{
    let h = hex_digit_char(b as int / 16);
    let l = hex_digit_char(b as int % 16);
    lemma_hex_digit_char(b as int / 16);
    lemma_hex_digit_char(b as int % 16);
    let d = seq![h, l];
    assert(hex_body(d) == d);
    assert(d.drop_last() =~= seq![h]);
    assert(seq![h].drop_last() =~= Seq::<char>::empty());
    assert(hex_value(Seq::<char>::empty()) == 0);
    assert(hex_value(seq![h]) == b as int / 16);
    assert(hex_value(d) == b as int);
    assert(all_hex_digits(d));
}

/// Reading a hex dump back gives every token as a byte: the low byte of each character.
pub proof fn lemma_hex_tokens_of_dump(s: Seq<char>)
    ensures
        hex_tokens(hex_encode(s)) == s.map_values(|c: char| Some(c as u8)),
        all_tokens_hex(hex_encode(s)),
{
    lemma_split_hex_encode(s);
    assert forall|k: int| 0 <= k < s.len() implies #[trigger] hex_tokens(hex_encode(s))[k] == Some(
        s[k] as u8,
    ) by {
        lemma_parse_pair(s[k] as u8);
    }
    assert(hex_tokens(hex_encode(s)) =~= s.map_values(|c: char| Some(c as u8)));
}

/// `as_num` reads back what `as_hex` writes: the low byte of each character.
pub proof fn lemma_as_num_of_as_hex(s: Seq<char>)
    ensures
        hex_bytes_or_zero(hex_encode(s)) == s.map_values(|c: char| c as u8),
{
    lemma_hex_tokens_of_dump(s);
    assert(hex_bytes_or_zero(hex_encode(s)) =~= s.map_values(|c: char| c as u8));
}

/// `as_char` reads back what `as_hex` writes: each character's low byte as a character, and so
/// the text itself when every character is below 256.
pub proof fn lemma_as_char_of_as_hex(s: Seq<char>)
    ensures
        all_tokens_hex(hex_encode(s)),
        hex_chars(hex_encode(s)) == s.map_values(|c: char| (c as u8) as char),
        (forall|x: int| 0 <= x < s.len() ==> (#[trigger] s[x] as int) < 256) ==> hex_chars(
            hex_encode(s),
        ) == s,
{
    lemma_hex_tokens_of_dump(s);
    assert(hex_chars(hex_encode(s)) =~= s.map_values(|c: char| (c as u8) as char));
    if forall|x: int| 0 <= x < s.len() ==> (#[trigger] s[x] as int) < 256 {
        assert forall|x: int| 0 <= x < s.len() implies #[trigger] hex_chars(hex_encode(s))[x]
            == s[x] by {
            lemma_latin1_low_byte(s[x]);
        }
        assert(hex_chars(hex_encode(s)) =~= s);
    }
}


/// The dump of a text has three characters per character of the text: the upper-case hexadecimal
/// digits of the high and low halves of its low byte, then a space.
pub proof fn lemma_hex_encode_layout(s: Seq<char>, k: int)
    requires
        0 <= k < s.len(),
    ensures
        hex_encode(s).len() == 3 * s.len(),
        hex_encode(s)[3 * k + 2] == ' ',
        hex_digit_value(hex_encode(s)[3 * k]) == Some((s[k] as u8) as int / 16),
        hex_digit_value(hex_encode(s)[3 * k + 1]) == Some((s[k] as u8) as int % 16),
        48 <= (hex_encode(s)[3 * k] as int) <= 57 || 65 <= (hex_encode(s)[3 * k] as int) <= 70,
        48 <= (hex_encode(s)[3 * k + 1] as int) <= 57 || 65 <= (hex_encode(s)[3 * k + 1] as int)
            <= 70,
    decreases s.len(),
{
    lemma_hex_encode_ends(s);
    let p = s.drop_last();
    lemma_hex_encode_ends(p);
    if k < s.len() - 1 {
        lemma_hex_encode_layout(p, k);
        assert(hex_encode(s)[3 * k] == hex_encode(p)[3 * k]);
        assert(hex_encode(s)[3 * k + 1] == hex_encode(p)[3 * k + 1]);
        assert(hex_encode(s)[3 * k + 2] == hex_encode(p)[3 * k + 2]);
        assert(p[k] == s[k]);
    } else {
        let b = s.last() as u8;
        lemma_hex_digit_char(b as int / 16);
        lemma_hex_digit_char(b as int % 16);
        assert(hex_encode(s)[3 * k] == hex_digit_char(b as int / 16));
        assert(hex_encode(s)[3 * k + 1] == hex_digit_char(b as int % 16));
        let n = b as int / 16;
        let m = b as int % 16;
        if n < 10 {
            assert(((48 + n) as char) as int == 48 + n);
        } else {
            assert(((55 + n) as char) as int == 55 + n);
        }
        if m < 10 {
            assert(((48 + m) as char) as int == 48 + m);
        } else {
            assert(((55 + m) as char) as int == 55 + m);
        }
    }
}

/// The digits of base 16: `0`–`9` are worth 0–9, and `a`–`f` and `A`–`F` are worth 10–15.
pub proof fn lemma_hex_digit_value_law(c: char)
    ensures
        hex_digit_value(c) is Some <==> (48 <= (c as int) <= 57 || 97 <= (c as int) <= 102 || 65
            <= (c as int) <= 70),
        48 <= (c as int) <= 57 ==> hex_digit_value(c) == Some(c as int - 48),
        97 <= (c as int) <= 102 ==> hex_digit_value(c) == Some(c as int - 97 + 10),
        65 <= (c as int) <= 70 ==> hex_digit_value(c) == Some(c as int - 65 + 10),
{
}

} // verus!
