//! Tools for attacking keystream reuse: combining ciphertexts, counting small bytes, and
//! narrowing down digits column by column.
use vstd::prelude::*;

use crate::hex::{as_hex, as_num, hex_bytes_or_zero, hex_encode, lemma_as_num_of_as_hex};
use crate::rc4::{crypt_char, keystream, lemma_crypt_char_byte, lemma_keystream_len, rc4_translate, Rc4View};
use crate::text::{byte_char, chars_of, low_byte};

verus! {

// ---------------------------------------------------------------------------
// Combining two ciphertexts
// ---------------------------------------------------------------------------

/// The two texts combined character by character, as far as the shorter one goes: the low
/// bytes are exclusive-ored.
pub open spec fn xor_text(a: Seq<char>, b: Seq<char>) -> Seq<char> {
    let n = if a.len() <= b.len() {
        a.len()
    } else {
        b.len()
    };
    Seq::new(n, |x: int| ((a[x] as u8) ^ (b[x] as u8)) as char)
}

/// Combines two texts character by character, up to the length of the shorter one.
pub fn xor(cip1: &str, cip2: &str) -> (r: String)
    ensures
        r@ == xor_text(cip1@, cip2@),
{
    let a = chars_of(cip1);
    let b = chars_of(cip2);
    let n = if a.len() <= b.len() {
        a.len()
    } else {
        b.len()
    };
    let mut res = String::new();
    for k in 0..n
        invariant
            a@ == cip1@,
            b@ == cip2@,
            n <= a@.len(),
            n <= b@.len(),
            res@ =~= xor_text(cip1@, cip2@).take(k as int),
    {
        crate::text::push_char(&mut res, byte_char(low_byte(a[k]) ^ low_byte(b[k])));
    }
    assert(xor_text(cip1@, cip2@).take(n as int) =~= xor_text(cip1@, cip2@));
    res
}

/// Two texts encrypted from the same generator state combine to what the texts themselves
/// combine to: reusing a keystream cancels it out.
pub proof fn lemma_keystream_reuse(v: Rc4View, m1: Seq<char>, m2: Seq<char>)
    ensures
        xor_text(rc4_translate(v, m1), rc4_translate(v, m2)) == xor_text(m1, m2),
{
    let c1 = rc4_translate(v, m1);
    let c2 = rc4_translate(v, m2);
    let k1 = keystream(v, m1.len());
    let k2 = keystream(v, m2.len());
    let n = if m1.len() <= m2.len() {
        m1.len()
    } else {
        m2.len()
    };
    assert forall|x: int| 0 <= x < n implies #[trigger] xor_text(c1, c2)[x] == xor_text(m1, m2)[x] by {
        lemma_keystream_prefix(v, x as nat, m1.len());
        lemma_keystream_prefix(v, x as nat, m2.len());
        assert(k1[x] == k2[x]);
        lemma_crypt_char_byte(m1[x], k1[x]);
        lemma_crypt_char_byte(m2[x], k1[x]);
        let a: u8 = m1[x] as u8;
        let b: u8 = m2[x] as u8;
        let k: u8 = k1[x] as u8;
        assert((a ^ k) ^ (b ^ k) == a ^ b) by (bit_vector);
    }
    assert(xor_text(c1, c2) =~= xor_text(m1, m2));
}

/// The `x`-th keystream value is the same in every keystream longer than `x`.
pub proof fn lemma_keystream_prefix(v: Rc4View, x: nat, n: nat)
    requires
        x < n,
    ensures
        keystream(v, n)[x as int] == keystream(v, x + 1)[x as int],
    decreases n,
{
    if n > x + 1 {
        lemma_keystream_prefix(v, x, (n - 1) as nat);
        lemma_keystream_len(v, (n - 1) as nat);
    }
}

// ---------------------------------------------------------------------------
// Counting small bytes
// ---------------------------------------------------------------------------

/// The number of bytes of `s` below `bound`.
pub open spec fn count_below(s: Seq<u8>, bound: u8) -> nat
    decreases s.len(),
{
    if s.len() == 0 {
        0
    } else {
        count_below(s.drop_last(), bound) + if s.last() < bound {
            1nat
        } else {
            0nat
        }
    }
}

/// The low bytes of a text.
pub open spec fn low_bytes(s: Seq<char>) -> Seq<u8> {
    s.map_values(|c: char| c as u8)
}

/// Combines two ciphertexts, writes the result as a hex dump, reads it back, and returns how
/// many of the bytes read are below 64 together with how many bytes were read. Text that is
/// mostly letters and spaces combines to mostly bytes below 64.
pub fn check_counts(cip1: &str, cip2: &str) -> (r: (usize, usize))
    ensures
        r.1 == hex_bytes_or_zero(hex_encode(xor_text(cip1@, cip2@))).len(),
        r.0 == count_below(hex_bytes_or_zero(hex_encode(xor_text(cip1@, cip2@))), 64),
        r.1 == xor_text(cip1@, cip2@).len(),
        r.0 == count_below(low_bytes(xor_text(cip1@, cip2@)), 64),
{
    let x = xor(cip1, cip2);
    let h = as_hex(x.as_str());
    let num = as_num(h.as_str());
    proof {
        lemma_as_num_of_as_hex(x@);
    }
    let mut stat: usize = 0;
    for k in 0..num.len()
        invariant
            stat == count_below(num@.take(k as int), 64),
            stat <= k,
    {
        assert(num@.take(k + 1).drop_last() =~= num@.take(k as int));
        if num[k] < 64 {
            stat = stat + 1;
        }
    }
    assert(num@.take(num.len() as int) =~= num@);
    (stat, num.len())
}

// ---------------------------------------------------------------------------
// Candidate digits
// ---------------------------------------------------------------------------

/// An ASCII decimal digit.
pub open spec fn is_digit(c: char) -> bool {
    48 <= (c as int) <= 57
}

/// Some decimal digit combines with `c` to `look`.
pub open spec fn has_xor_partner(c: char, look: u8) -> bool {
    exists|e: u8| 48 <= e <= 57 && #[trigger] ((c as u8) ^ e) == look
}

/// The characters of `s` strictly increase, so none occurs twice.
pub open spec fn strictly_increasing(s: Seq<char>) -> bool {
    forall|a: int, b: int| 0 <= a < b < s.len() ==> (#[trigger] s[a] as int) < (#[trigger] s[b] as int)
}

/// `s` lists, in increasing order, exactly the characters that satisfy `p`.
pub open spec fn lists_exactly(s: Seq<char>, p: spec_fn(char) -> bool) -> bool {
    &&& strictly_increasing(s)
    &&& forall|c: char| #[trigger] s.contains(c) <==> p(c)
}

/// The digits that some digit combines with to `look`.
pub open spec fn xor_candidates(look: u8) -> spec_fn(char) -> bool {
    |c: char| is_digit(c) && has_xor_partner(c, look)
}

/// The digits that could stand first in a column of ciphertext characters, all encrypted with
/// one keystream byte: for every other character of the column some digit combines with the
/// first to what the two ciphertext characters combine to.
pub open spec fn column_candidates(column: Seq<char>) -> spec_fn(char) -> bool {
    |c: char|
        is_digit(c) && forall|k: int|
            1 <= k < column.len() ==> has_xor_partner(
                c,
                #[trigger] ((column[0] as u8) ^ (column[k] as u8)),
            )
}

/// The digits `d` for which some digit `e` gives `d ^ e == look`, in increasing order.
pub fn look_for_xor(look: u8) -> (r: Vec<char>)
    ensures
        lists_exactly(r@, xor_candidates(look)),
        strictly_increasing(r@),
        forall|c: char|
            #[trigger] r@.contains(c) <==> (48 <= (c as int) <= 57 && exists|e: u8|
                48 <= e <= 57 && #[trigger] ((c as u8) ^ e) == look),
{
    let mut res: Vec<char> = Vec::new();
    for i in 0..10u8
        invariant
            forall|a: int| 0 <= a < res@.len() ==> 48 <= #[trigger] (res@[a] as int) && (res@[a] as int) < 48 + i,
            strictly_increasing(res@),
            forall|c: char|
                (48 <= (c as int) < 48 + i) ==> (#[trigger] res@.contains(c) <==> xor_candidates(
                    look,
                )(c)),
            forall|c: char| #[trigger] res@.contains(c) ==> 48 <= (c as int) < 48 + i,
    {
        let d: u8 = 48 + i;
        let mut found = false;
        for j in 0..10u8
            invariant
                d == 48 + i,
                found ==> exists|e: u8| 48 <= e <= 57 && #[trigger] (d ^ e) == look,
                !found ==> forall|e: u8| 48 <= e < 48 + j ==> #[trigger] (d ^ e) != look,
        {
            let e: u8 = 48 + j;
            if d ^ e == look {
                found = true;
            }
        }
        let c = byte_char(d);
        proof {
            assert(c as int == d as int);
            assert((c as u8) == d);
            if !found {
                assert forall|e: u8| 48 <= e <= 57 implies #[trigger] ((c as u8) ^ e) != look by {}
            }
        }
        let ghost old_res = res@;
        if found {
            res.push(c);
            proof {
                assert forall|x: char| #[trigger] res@.contains(x) <==> (old_res.contains(x) || x
                    == c) by {
                    if x == c {
                        assert(res@[res@.len() - 1] == c);
                    }
                    if res@.contains(x) {
                        let w = choose|w: int| 0 <= w < res@.len() && res@[w] == x;
                        if w < old_res.len() {
                            assert(old_res[w] == x);
                        }
                    }
                    if old_res.contains(x) {
                        let w = choose|w: int| 0 <= w < old_res.len() && old_res[w] == x;
                        assert(res@[w] == x);
                    }
                }
            }
        }
    }
    res
}

/// A sequence with one more element contains what it contained and that element.
proof fn lemma_contains_push(s: Seq<char>, x: char, c: char)
    ensures
        s.push(x).contains(c) <==> (s.contains(c) || x == c),
{
    if s.push(x).contains(c) {
        let w = choose|w: int| 0 <= w < s.push(x).len() && s.push(x)[w] == c;
        if w < s.len() {
            assert(s[w] == c);
        }
    }
    if s.contains(c) {
        let w = choose|w: int| 0 <= w < s.len() && s[w] == c;
        assert(s.push(x)[w] == c);
    }
    if x == c {
        assert(s.push(x)[s.len() as int] == c);
    }
}

/// Keeps the characters of `a` that also occur in `b`, in the order of `a`.
fn intersect(a: &Vec<char>, b: &Vec<char>) -> (r: Vec<char>)
    requires
        strictly_increasing(a@),
    ensures
        strictly_increasing(r@),
        forall|c: char| #[trigger] r@.contains(c) <==> (a@.contains(c) && b@.contains(c)),
{
    let mut res: Vec<char> = Vec::new();
    for i in 0..a.len()
        invariant
            strictly_increasing(a@),
            strictly_increasing(res@),
            forall|c: char|
                #[trigger] res@.contains(c) <==> (a@.take(i as int).contains(c) && b@.contains(c)),
            forall|x: int, y: int|
                0 <= x < res@.len() && i <= y < a@.len() ==> (#[trigger] res@[x] as int) < (
                #[trigger] a@[y] as int),
    {
        let c = a[i];
        let mut inb = false;
        for j in 0..b.len()
            invariant
                inb <==> b@.take(j as int).contains(c),
        {
            assert(b@.take(j + 1) =~= b@.take(j as int).push(b@[j as int]));
            proof {
                lemma_contains_push(b@.take(j as int), b@[j as int], c);
            }
            if b[j] == c {
                inb = true;
            }
        }
        assert(b@.take(b.len() as int) =~= b@);
        let ghost old_res = res@;
        assert(a@.take(i + 1) =~= a@.take(i as int).push(c));
        assert forall|x: char| #[trigger] a@.take(i + 1).contains(x) <==> (a@.take(i as int).contains(x) || x == c) by {
            lemma_contains_push(a@.take(i as int), c, x);
        }
        if !inb {
            assert(!b@.contains(c));
        }
        if inb {
            res.push(c);
            proof {
                assert forall|x: int| 0 <= x < old_res.len() implies (#[trigger] old_res[x] as int)
                    < (c as int) by {
                    assert(a@[i as int] == c);
                }
                assert forall|x: char| #[trigger] res@.contains(x) <==> (old_res.contains(x) || x
                    == c) by {
                    if x == c {
                        assert(res@[res@.len() - 1] == c);
                    }
                    if res@.contains(x) {
                        let w = choose|w: int| 0 <= w < res@.len() && res@[w] == x;
                        if w < old_res.len() {
                            assert(old_res[w] == x);
                        }
                    }
                    if old_res.contains(x) {
                        let w = choose|w: int| 0 <= w < old_res.len() && old_res[w] == x;
                        assert(res@[w] == x);
                    }
                }
                assert forall|x: int, y: int|
                    0 <= x < res@.len() && i + 1 <= y < a@.len() implies (#[trigger] res@[x] as int)
                    < (#[trigger] a@[y] as int) by {
                    if x < old_res.len() {
                        assert(old_res[x] == res@[x]);
                        assert((old_res[x] as int) < (a@[y] as int));
                    } else {
                        assert(res@[x] == a@[i as int]);
                    }
                }
            }
        }
    }
    assert(a@.take(a.len() as int) =~= a@);
    res
}

/// The digits that could have been the first character of a column: those that, for every other
/// character of the column, combine with some digit to what the two characters combine to.
pub fn find_char_from_xor(chars: &Vec<char>) -> (r: Vec<char>)
    requires
        chars@.len() > 0,
    ensures
        lists_exactly(r@, column_candidates(chars@)),
        strictly_increasing(r@),
        forall|c: char|
            #[trigger] r@.contains(c) <==> (48 <= (c as int) <= 57 && forall|k: int|
                1 <= k < chars@.len() ==> #[trigger] digit_explains(c, chars@[0], chars@[k])),
{
    let mut res: Vec<char> = Vec::new();
    for i in 0..10u8
        invariant
            res@.len() == i,
            forall|a: int| 0 <= a < i ==> #[trigger] res@[a] as int == 48 + a,
    {
        res.push(byte_char(48 + i));
    }
    proof {
        assert forall|c: char| #[trigger] res@.contains(c) <==> is_digit(c) by {
            if is_digit(c) {
                assert(res@[c as int - 48] == c);
            }
        }
    }
    let first = chars[0];
    for k in 1..chars.len()
        invariant
            chars@.len() > 0,
            first == chars@[0],
            strictly_increasing(res@),
            forall|c: char|
                #[trigger] res@.contains(c) <==> (is_digit(c) && forall|m: int|
                    1 <= m < k ==> has_xor_partner(
                        c,
                        #[trigger] ((chars@[0] as u8) ^ (chars@[m] as u8)),
                    )),
    {
        let look = low_byte(first) ^ low_byte(chars[k]);
        let options = look_for_xor(look);
        let ghost old_res = res@;
        res = intersect(&res, &options);
        proof {
            assert forall|c: char| #[trigger] res@.contains(c) <==> (is_digit(c) && forall|m: int|
                1 <= m < k + 1 ==> has_xor_partner(
                    c,
                    #[trigger] ((chars@[0] as u8) ^ (chars@[m] as u8)),
                )) by {
                assert(options@.contains(c) <==> xor_candidates(look)(c));
                assert(old_res.contains(c) <==> (is_digit(c) && forall|m: int|
                    1 <= m < k ==> has_xor_partner(
                        c,
                        #[trigger] ((chars@[0] as u8) ^ (chars@[m] as u8)),
                    )));
            }
        }
    }
    proof {
        assert forall|c: char| #[trigger] res@.contains(c) implies column_candidates(chars@)(c) by {}
        assert forall|c: char| column_candidates(chars@)(c) implies #[trigger] res@.contains(c) by {}
        assert forall|c: char| #[trigger] res@.contains(c) <==> (48 <= (c as int) <= 57 && forall|k: int|
            1 <= k < chars@.len() ==> #[trigger] digit_explains(c, chars@[0], chars@[k])) by {
            lemma_column_candidates_law(chars@, c);
        }
    }
    res
}


// ---------------------------------------------------------------------------
// Walking several ciphertexts column by column
// ---------------------------------------------------------------------------

/// A position in a text, handing out its characters one at a time.
pub struct CharCursor {
    text: Vec<char>,
    pos: usize,
}

impl View for CharCursor {
    type V = Seq<char>;

    /// The characters not yet handed out.
    closed spec fn view(&self) -> Seq<char> {
        self.text@.skip(self.pos as int)
    }
}

impl CharCursor {
    #[verifier::type_invariant]
    spec fn inv(self) -> bool {
        self.pos <= self.text@.len()
    }

    /// A cursor at the start of `s`.
    pub fn new(s: &str) -> (r: CharCursor)
        ensures
            r@ == s@,
    {
        let text = chars_of(s);
        assert(text@.skip(0) =~= text@);
        CharCursor { text, pos: 0 }
    }

    /// Hands out the next character, or `None` at the end.
    pub fn next(&mut self) -> (r: Option<char>)
        ensures
            old(self)@.len() > 0 ==> r == Some(old(self)@[0]) && final(self)@ == old(self)@.drop_first(),
            old(self)@.len() == 0 ==> r is None && final(self)@ == old(self)@,
    {
        proof {
            use_type_invariant(&*self);
        }
        if self.pos < self.text.len() {
            let c = self.text[self.pos];
            let ghost before = self@;
            self.pos = self.pos + 1;
            assert(self@ =~= before.drop_first());
            Some(c)
        } else {
            None
        }
    }
}

/// The characters that each cursor has left.
pub open spec fn remainders(cs: Seq<CharCursor>) -> Seq<Seq<char>> {
    cs.map_values(|c: CharCursor| c@)
}

/// How many of the texts, from the first on, are not empty before the first empty one.
pub open spec fn leading_nonempty(rs: Seq<Seq<char>>) -> nat
    decreases rs.len(),
{
    if rs.len() == 0 {
        0
    } else {
        let p = leading_nonempty(rs.drop_last());
        if p == rs.len() - 1 && rs.last().len() > 0 {
            p + 1
        } else {
            p
        }
    }
}

proof fn lemma_leading_nonempty(rs: Seq<Seq<char>>)
    ensures
        leading_nonempty(rs) <= rs.len(),
        forall|k: int| 0 <= k < leading_nonempty(rs) ==> (#[trigger] rs[k]).len() > 0,
        leading_nonempty(rs) < rs.len() ==> rs[leading_nonempty(rs) as int].len() == 0,
    decreases rs.len(),
{
    if rs.len() > 0 {
        lemma_leading_nonempty(rs.drop_last());
        let p = rs.drop_last();
        assert forall|k: int| 0 <= k < leading_nonempty(rs) implies (#[trigger] rs[k]).len() > 0 by {
            if k < rs.len() - 1 {
                assert(rs[k] == p[k]);
            }
        }
        if leading_nonempty(p) < p.len() {
            assert(rs[leading_nonempty(p) as int] == p[leading_nonempty(p) as int]);
        }
    }
}

/// Takes one character from each cursor in turn. When every cursor has one, returns them all
/// and every cursor moves on by one; otherwise returns `None`, with the cursors before the first
/// exhausted one moved on by one and the others unchanged.
pub fn get_slice(iters: &mut Vec<CharCursor>) -> (r: Option<Vec<char>>)
    ensures
        ({
            let before = remainders(old(iters)@);
            let n = leading_nonempty(before);
            &&& final(iters)@.len() == old(iters)@.len()
            &&& remainders(final(iters)@) == Seq::new(
                before.len(),
                |k: int|
                    if k < n {
                        before[k].drop_first()
                    } else {
                        before[k]
                    },
            )
            &&& (r is Some <==> n == before.len())
            &&& (r matches Some(v) ==> v@ == Seq::new(before.len(), |k: int| before[k][0]))
        }),
{
    let ghost before = remainders(iters@);
    proof {
        lemma_leading_nonempty(before);
    }
    let ghost n = leading_nonempty(before);
    let mut res: Vec<char> = Vec::new();
    let len = iters.len();
    for k in 0..len
        invariant
            before == remainders(old(iters)@),
            n == leading_nonempty(before),
            len == before.len(),
            iters@.len() == len,
            n <= len,
            forall|m: int| 0 <= m < n ==> (#[trigger] before[m]).len() > 0,
            n < len ==> before[n as int].len() == 0,
            k <= n,
            res@ == Seq::new(k as nat, |m: int| before[m][0]),
            forall|m: int|
                0 <= m < len ==> (#[trigger] iters@[m])@ == if m < k {
                    before[m].drop_first()
                } else {
                    before[m]
                },
    {
        let ghost prev = iters@;
        match iters[k].next() {
            Some(c) => {
                res.push(c);
                assert(res@ =~= Seq::new((k + 1) as nat, |m: int| before[m][0]));
                assert forall|m: int| 0 <= m < len implies (#[trigger] iters@[m])@ == if m < k + 1 {
                    before[m].drop_first()
                } else {
                    before[m]
                } by {
                    if m != k {
                        assert(iters@[m] == prev[m]);
                    }
                }
            },
            None => {
                assert(remainders(iters@) =~= Seq::new(
                    before.len(),
                    |m: int|
                        if m < n {
                            before[m].drop_first()
                        } else {
                            before[m]
                        },
                ));
                return None;
            },
        }
    }
    assert(remainders(iters@) =~= Seq::new(
        before.len(),
        |m: int|
            if m < n {
                before[m].drop_first()
            } else {
                before[m]
            },
    ));
    Some(res)
}


/// The `t`-th character of each text.
pub open spec fn column(texts: Seq<Seq<char>>, t: int) -> Seq<char> {
    Seq::new(texts.len(), |k: int| texts[k][t])
}

/// The texts of a list of strings.
pub open spec fn texts_of(ciphers: Seq<String>) -> Seq<Seq<char>> {
    ciphers.map_values(|c: String| c@)
}

/// Walks the ciphertexts column by column, up to the end of the shortest one, and lists for
/// each column the digits that could have been its first character (see `find_char_from_xor`).
pub fn process_ciphers(ciphers: &Vec<String>) -> (r: Vec<Vec<char>>)
    requires
        ciphers@.len() > 0,
    ensures
        forall|k: int| 0 <= k < ciphers@.len() ==> r@.len() <= (#[trigger] ciphers@[k])@.len(),
        exists|k: int| 0 <= k < ciphers@.len() && (#[trigger] ciphers@[k])@.len() == r@.len(),
        forall|t: int|
            0 <= t < r@.len() ==> lists_exactly(
                (#[trigger] r@[t])@,
                column_candidates(column(texts_of(ciphers@), t)),
            ),
{
    let ghost texts = texts_of(ciphers@);
    let n = ciphers.len();
    let mut iters: Vec<CharCursor> = Vec::new();
    for k in 0..n
        invariant
            n == ciphers@.len(),
            texts == texts_of(ciphers@),
            iters@.len() == k,
            forall|m: int| 0 <= m < k ==> (#[trigger] iters@[m])@ == texts[m],
    {
        iters.push(CharCursor::new(ciphers[k].as_str()));
    }
    let mut res: Vec<Vec<char>> = Vec::new();
    loop
        invariant_except_break
            forall|k: int| 0 <= k < n ==> (#[trigger] iters@[k])@ == texts[k].skip(res@.len() as int),
        invariant
            n == ciphers@.len(),
            n > 0,
            texts == texts_of(ciphers@),
            iters@.len() == n,
            forall|k: int| 0 <= k < n ==> res@.len() <= (#[trigger] texts[k]).len(),
            forall|t: int|
                0 <= t < res@.len() ==> lists_exactly(
                    (#[trigger] res@[t])@,
                    column_candidates(column(texts, t)),
                ),
        ensures
            exists|k: int| 0 <= k < n && (#[trigger] texts[k]).len() == res@.len(),
        decreases iters@[0]@.len(),
    {
        let ghost before = remainders(iters@);
        proof {
            lemma_leading_nonempty(before);
            assert(before[0] == iters@[0]@);
        }
        match get_slice(&mut iters) {
            Some(enc) => {
                let ghost t = res@.len() as int;
                assert(enc@ =~= column(texts, t)) by {
                    assert forall|k: int| 0 <= k < n implies #[trigger] enc@[k] == column(texts, t)[k] by {
                        assert(before[k].len() > 0);
                        assert(before[k] == texts[k].skip(t));
                    }
                }
                proof {
                    assert forall|k: int| 0 <= k < n implies t < (#[trigger] texts[k]).len() by {
                        assert(before[k].len() > 0);
                        assert(before[k] == texts[k].skip(t));
                    }
                    assert(enc@.len() > 0);
                }
                let opts = find_char_from_xor(&enc);
                res.push(opts);
                proof {
                    assert forall|k: int| 0 <= k < n implies (#[trigger] iters@[k])@ == texts[k].skip(
                        res@.len() as int,
                    ) by {
                        assert(remainders(iters@)[k] == iters@[k]@);
                        assert(before[k] == texts[k].skip(t));
                        assert(texts[k].skip(t).drop_first() =~= texts[k].skip(t + 1));
                    }
                    assert(before[0].len() > 0);
                    assert(remainders(iters@)[0] == iters@[0]@);
                }
            },
            None => {
                proof {
                    let m = leading_nonempty(before);
                    assert(before[m as int].len() == 0);
                    assert(before[m as int] == texts[m as int].skip(res@.len() as int));
                    assert(texts[m as int].len() == res@.len());
                }
                break ;
            },
        }
    }
    proof {
        assert forall|k: int| 0 <= k < n implies texts[k] == (#[trigger] ciphers@[k])@ by {}
        let w = choose|k: int| 0 <= k < n && (#[trigger] texts[k]).len() == res@.len();
        assert(texts[w] == ciphers@[w]@);
    }
    res
}


/// When several digit texts are encrypted from one generator state, the first text's digit in
/// any column is among the candidates for that column: the keystream cancels out of every pair.
pub proof fn lemma_true_digit_is_candidate(v: Rc4View, plain: Seq<Seq<char>>, t: int)
    requires
        plain.len() > 0,
        forall|k: int| 0 <= k < plain.len() ==> 0 <= t < (#[trigger] plain[k]).len(),
        forall|k: int| 0 <= k < plain.len() ==> is_digit(#[trigger] plain[k][t]),
    ensures
        column_candidates(
            column(plain.map_values(|m: Seq<char>| rc4_translate(v, m)), t),
        )(plain[0][t]),
{
    let ciphers = plain.map_values(|m: Seq<char>| rc4_translate(v, m));
    let col = column(ciphers, t);
    let d = plain[0][t];
    assert forall|k: int| 1 <= k < col.len() implies has_xor_partner(
        d,
        #[trigger] ((col[0] as u8) ^ (col[k] as u8)),
    ) by {
        lemma_keystream_reuse(v, plain[0], plain[k]);
        let x = xor_text(rc4_translate(v, plain[0]), rc4_translate(v, plain[k]));
        assert(x[t] == xor_text(plain[0], plain[k])[t]);
        lemma_crypt_char_byte_of_u8((col[0] as u8) ^ (col[k] as u8));
        lemma_crypt_char_byte_of_u8((d as u8) ^ (plain[k][t] as u8));
        let e: u8 = plain[k][t] as u8;
        assert(48 <= e <= 57);
        assert(((d as u8) ^ e) == (col[0] as u8) ^ (col[k] as u8));
    }
}

/// A byte turned into a character and back is the same byte.
proof fn lemma_crypt_char_byte_of_u8(b: u8)
    ensures
        (b as char) as u8 == b,
{
}


/// Some decimal digit `e` gives `c ^ e == a ^ b` (on the low bytes): `c` and `e` could have
/// been the plaintexts of two ciphertext characters `a` and `b` under one keystream byte.
pub open spec fn digit_explains(c: char, a: char, b: char) -> bool {
    exists|e: u8| 48 <= e <= 57 && #[trigger] ((c as u8) ^ e) == (a as u8) ^ (b as u8)
}

/// A digit `d` is a candidate for a column exactly when every later character `c_k` of the column
/// leaves a digit `e` with `d ^ e == c_0 ^ c_k`: the candidates are the intersection, over all
/// pairs with the first character, of the digits that can explain the pair.
pub proof fn lemma_column_candidates_law(column: Seq<char>, c: char)
    ensures
        column_candidates(column)(c) <==> (48 <= (c as int) <= 57 && forall|k: int|
            1 <= k < column.len() ==> #[trigger] digit_explains(c, column[0], column[k])),
{
    if column_candidates(column)(c) {
        assert forall|k: int| 1 <= k < column.len() implies #[trigger] digit_explains(
            c,
            column[0],
            column[k],
        ) by {
            assert(has_xor_partner(c, (column[0] as u8) ^ (column[k] as u8)));
        }
    }
    if 48 <= (c as int) <= 57 && forall|k: int|
        1 <= k < column.len() ==> #[trigger] digit_explains(c, column[0], column[k]) {
        assert forall|k: int| 1 <= k < column.len() implies has_xor_partner(
            c,
            #[trigger] ((column[0] as u8) ^ (column[k] as u8)),
        ) by {
            assert(digit_explains(c, column[0], column[k]));
        }
    }
}

/// A digit `d` is a candidate for `look` exactly when some digit `e` gives `d ^ e == look`.
pub proof fn lemma_xor_candidates_law(look: u8, c: char)
    ensures
        xor_candidates(look)(c) <==> (48 <= (c as int) <= 57 && exists|e: u8|
            48 <= e <= 57 && #[trigger] ((c as u8) ^ e) == look),
{
}


/// Combining two texts gives as many characters as the shorter has, each with as low byte the
/// exclusive or of the two low bytes.
pub proof fn lemma_xor_text_law(a: Seq<char>, b: Seq<char>, x: int)
    requires
        0 <= x < a.len(),
        x < b.len(),
    ensures
        xor_text(a, b).len() == if a.len() <= b.len() {
            a.len()
        } else {
            b.len()
        },
        xor_text(a, b)[x] as u8 == (a[x] as u8) ^ (b[x] as u8),
{
    let e: u8 = (a[x] as u8) ^ (b[x] as u8);
    assert((e as char) as u8 == e);
}

/// One more byte adds one to the count exactly when it is below the bound.
pub proof fn lemma_count_below_law(s: Seq<u8>, v: u8, bound: u8)
    ensures
        count_below(Seq::<u8>::empty(), bound) == 0,
        count_below(s.push(v), bound) == count_below(s, bound) + if v < bound {
            1int
        } else {
            0int
        },
{
    assert(s.push(v).drop_last() =~= s);
}

} // verus!
