//! The RC4 generator: key schedule, keystream and encryption, with their specification.
use vstd::prelude::*;

use crate::text::{as_index, chars_of, low_byte, push_char};

verus! {

/// The abstract state of the generator: the permutation and the two indices.
pub struct Rc4View {
    pub s: Seq<usize>,
    pub i: usize,
    pub j: usize,
}

/// `s` holds each of `0..256` exactly once.
pub open spec fn is_permutation(s: Seq<usize>) -> bool {
    &&& s.len() == 256
    &&& forall|k: int| 0 <= k < 256 ==> #[trigger] s[k] < 256
    &&& forall|a: int, b: int| 0 <= a < 256 && 0 <= b < 256 && a != b ==> #[trigger] s[a] != #[trigger] s[b]
}

/// A state in which every index the generator reads stays in bounds.
pub open spec fn well_formed(v: Rc4View) -> bool {
    &&& is_permutation(v.s)
    &&& v.i < 256
    &&& v.j < 256
}

/// Exchanges the entries at positions `a` and `b`.
pub open spec fn swap_seq(s: Seq<usize>, a: int, b: int) -> Seq<usize> {
    s.update(a, s[b]).update(b, s[a])
}

/// The identity permutation `0, 1, ..., 255`.
pub open spec fn identity_perm() -> Seq<usize> {
    Seq::new(256, |k: int| k as usize)
}

/// The key character used at step `i` of the key schedule: the key is repeated cyclically.
pub open spec fn key_char(key: Seq<char>, i: int) -> int {
    key[i % (key.len() as int)] as int
}

/// The key schedule after its first `n` steps: the permutation and the index `j`.
pub open spec fn ksa(key: Seq<char>, n: nat) -> (Seq<usize>, usize)
    decreases n,
{
    if n == 0 {
        (identity_perm(), 0usize)
    } else {
        let prev = ksa(key, (n - 1) as nat);
        let i = n - 1;
        let j = ((prev.1 + prev.0[i] + key_char(key, i)) % 256) as usize;
        (swap_seq(prev.0, i, j as int), j)
    }
}

/// The generator state that a key sets up: the full 256-step schedule and both indices at zero.
pub open spec fn init_state(key: Seq<char>) -> Rc4View {
    Rc4View { s: ksa(key, 256).0, i: 0, j: 0 }
}

/// One step of the generator: `j` moves on by one, `i` moves on by `s[j]`, and the two entries are exchanged.
pub open spec fn prga_step(v: Rc4View) -> Rc4View {
    let j = ((v.j + 1) % 256) as usize;
    let i = ((v.i + v.s[j as int]) % 256) as usize;
    Rc4View { s: swap_seq(v.s, i as int, j as int), i, j }
}

/// The keystream value produced by the step taken from `v`.
pub open spec fn prga_output(v: Rc4View) -> usize {
    let n = prga_step(v);
    n.s[(n.s[n.i as int] + n.s[n.j as int]) % 256]
}

/// The state after `n` steps.
pub open spec fn advance(v: Rc4View, n: nat) -> Rc4View
    decreases n,
{
    if n == 0 {
        v
    } else {
        prga_step(advance(v, (n - 1) as nat))
    }
}

/// The first `n` keystream values produced from `v`.
pub open spec fn keystream(v: Rc4View, n: nat) -> Seq<usize>
    decreases n,
{
    if n == 0 {
        Seq::empty()
    } else {
        keystream(v, (n - 1) as nat).push(prga_output(advance(v, (n - 1) as nat)))
    }
}

/// `keystream(v, n)` has `n` values.
pub proof fn lemma_keystream_len(v: Rc4View, n: nat)
    ensures
        keystream(v, n).len() == n,
    decreases n,
{
    if n > 0 {
        lemma_keystream_len(v, (n - 1) as nat);
    }
}

/// A character combined with a keystream value: the low bytes are exclusive-ored.
pub open spec fn crypt_char(c: char, k: usize) -> char {
    ((c as u8) ^ (k as u8)) as char
}

/// The text that `translate` makes of `msg` from state `v`.
pub open spec fn rc4_translate(v: Rc4View, msg: Seq<char>) -> Seq<char> {
    let ks = keystream(v, msg.len());
    Seq::new(msg.len(), |x: int| crypt_char(msg[x], ks[x]))
}

/// Exchanging two entries of a permutation gives a permutation.
pub proof fn lemma_swap_keeps_permutation(s: Seq<usize>, a: int, b: int)
    requires
        is_permutation(s),
        0 <= a < 256,
        0 <= b < 256,
    ensures
        is_permutation(swap_seq(s, a, b)),
{
    let t = swap_seq(s, a, b);
    assert forall|x: int, y: int| 0 <= x < 256 && 0 <= y < 256 && x != y implies #[trigger] t[x]
        != #[trigger] t[y] by {
        let px = if x == a { b } else if x == b { a } else { x };
        let py = if y == a { b } else if y == b { a } else { y };
        assert(t[x] == s[px]);
        assert(t[y] == s[py]);
    }
    assert forall|k: int| 0 <= k < 256 implies #[trigger] t[k] < 256 by {
        let pk = if k == a { b } else if k == b { a } else { k };
        assert(t[k] == s[pk]);
    }
}

/// A generator step keeps the state well formed.
pub proof fn lemma_step_keeps_well_formed(v: Rc4View)
    requires
        well_formed(v),
    ensures
        well_formed(prga_step(v)),
        prga_output(v) < 256,
{
    let j = ((v.j + 1) % 256) as usize;
    assert(v.s[j as int] < 256);
    let i = ((v.i + v.s[j as int]) % 256) as usize;
    lemma_swap_keeps_permutation(v.s, i as int, j as int);
    let n = prga_step(v);
    assert(n.s[n.i as int] < 256);
    assert(n.s[n.j as int] < 256);
}

/// Every step of the key schedule keeps a permutation and a `j` below 256.
pub proof fn lemma_ksa_well_formed(key: Seq<char>, n: nat)
    requires
        n <= 256,
    ensures
        is_permutation(ksa(key, n).0),
        ksa(key, n).1 < 256,
    decreases n,
{
    if n == 0 {
        let id = identity_perm();
        assert forall|a: int, b: int| 0 <= a < 256 && 0 <= b < 256 && a != b implies #[trigger] id[a]
            != #[trigger] id[b] by {}
    } else {
        lemma_ksa_well_formed(key, (n - 1) as nat);
        let prev = ksa(key, (n - 1) as nat);
        let i = n - 1;
        let j = ((prev.1 + prev.0[i] + key_char(key, i)) % 256) as usize;
        lemma_swap_keeps_permutation(prev.0, i, j as int);
    }
}

/// Every state reached from a well-formed state is well formed.
pub proof fn lemma_advance_well_formed(v: Rc4View, n: nat)
    requires
        well_formed(v),
    ensures
        well_formed(advance(v, n)),
    decreases n,
{
    if n > 0 {
        lemma_advance_well_formed(v, (n - 1) as nat);
        lemma_step_keeps_well_formed(advance(v, (n - 1) as nat));
    }
}

/// The low byte of a combined character is the exclusive or of the two low bytes.
pub proof fn lemma_crypt_char_byte(c: char, k: usize)
    ensures
        crypt_char(c, k) as u8 == (c as u8) ^ (k as u8),
{
    let e: u8 = (c as u8) ^ (k as u8);
    assert((e as char) as u8 == e);
}

/// Combining a Latin-1 character twice with the same keystream value gives it back.
pub proof fn lemma_crypt_char_twice(c: char, k: usize)
    requires
        (c as int) < 256,
    ensures
        crypt_char(crypt_char(c, k), k) == c,
{
    let b: u8 = c as u8;
    let kb: u8 = k as u8;
    lemma_crypt_char_byte(c, k);
    lemma_crypt_char_byte(crypt_char(c, k), k);
    assert((b ^ kb) ^ kb == b) by (bit_vector);
    assert(b as int == c as int);
}

/// Running `translate` twice from the same starting state gives back any text whose characters
/// are all below 256: encryption and decryption are the same operation.
pub proof fn lemma_translate_twice(v: Rc4View, msg: Seq<char>)
    requires
        forall|x: int| 0 <= x < msg.len() ==> (#[trigger] msg[x] as int) < 256,
    ensures
        rc4_translate(v, rc4_translate(v, msg)) == msg,
{
    let once = rc4_translate(v, msg);
    let ks = keystream(v, msg.len());
    assert forall|x: int| 0 <= x < msg.len() implies #[trigger] rc4_translate(v, once)[x]
        == msg[x] by {
        lemma_crypt_char_twice(msg[x], ks[x]);
    }
    assert(rc4_translate(v, once) =~= msg);
}

/// `a + b` steps are `a` steps followed by `b` steps.
pub proof fn lemma_advance_add(v: Rc4View, a: nat, b: nat)
    ensures
        advance(v, a + b) == advance(advance(v, a), b),
    decreases b,
{
    if b > 0 {
        lemma_advance_add(v, a, (b - 1) as nat);
        assert(advance(v, a + b) == prga_step(advance(v, (a + b - 1) as nat)));
    }
}

/// The keystream of `a + b` values is that of `a` values followed by the `b` values
/// produced from the state `a` steps on.
pub proof fn lemma_keystream_add(v: Rc4View, a: nat, b: nat)
    ensures
        keystream(v, a + b) == keystream(v, a) + keystream(advance(v, a), b),
    decreases b,
{
    if b == 0 {
        assert(keystream(v, a) + keystream(advance(v, a), 0) =~= keystream(v, a));
    } else {
        lemma_keystream_add(v, a, (b - 1) as nat);
        lemma_advance_add(v, a, (b - 1) as nat);
        assert(keystream(v, a + b) == keystream(v, (a + b - 1) as nat).push(
            prga_output(advance(v, (a + b - 1) as nat)),
        ));
        assert(keystream(v, a + b) =~= keystream(v, a) + keystream(advance(v, a), b));
    }
}

/// Running `translate` on two texts one after the other on one generator gives the same as running it on
/// their concatenation: the keystream carries on across calls.
pub proof fn lemma_translate_concat(v: Rc4View, m1: Seq<char>, m2: Seq<char>)
    ensures
        rc4_translate(v, m1 + m2) == rc4_translate(v, m1) + rc4_translate(
            advance(v, m1.len()),
            m2,
        ),
{
    lemma_keystream_add(v, m1.len(), m2.len());
    lemma_keystream_len(v, m1.len());
    lemma_keystream_len(advance(v, m1.len()), m2.len());
    assert(rc4_translate(v, m1 + m2) =~= rc4_translate(v, m1) + rc4_translate(
        advance(v, m1.len()),
        m2,
    ));
}

/// Every state that a key leads to is well formed, and every keystream value is below 256.
pub proof fn lemma_reachable_well_formed(key: Seq<char>, n: nat)
    ensures
        well_formed(advance(init_state(key), n)),
        forall|x: int| 0 <= x < n ==> #[trigger] keystream(init_state(key), n)[x] < 256,
{
    lemma_ksa_well_formed(key, 256);
    lemma_advance_well_formed(init_state(key), n);
    lemma_keystream_bounded(init_state(key), n);
}

/// Every keystream value of a well-formed state is below 256.
pub proof fn lemma_keystream_bounded(v: Rc4View, n: nat)
    requires
        well_formed(v),
    ensures
        forall|x: int| 0 <= x < n ==> #[trigger] keystream(v, n)[x] < 256,
    decreases n,
{
    if n > 0 {
        lemma_keystream_bounded(v, (n - 1) as nat);
        lemma_keystream_len(v, (n - 1) as nat);
        lemma_advance_well_formed(v, (n - 1) as nat);
        lemma_step_keeps_well_formed(advance(v, (n - 1) as nat));
    }
}

/// Step `n` of the key schedule uses the key character at position `(n - 1) mod key length`,
/// for the whole key: `j` moves on by the entry at `n - 1` and that character's code, and the
/// entries at `n - 1` and the new `j` are exchanged.
pub proof fn lemma_ksa_step_law(key: Seq<char>, n: nat)
    requires
        1 <= n <= 256,
        key.len() > 0,
    ensures
        ({
            let prev = ksa(key, (n - 1) as nat);
            let i = n - 1;
            let c = key[i % (key.len() as int)];
            let j = (prev.1 + prev.0[i] + (c as int)) % 256;
            &&& ksa(key, n).1 == j
            &&& ksa(key, n).0 == prev.0.update(i, prev.0[j]).update(j, prev.0[i])
        }),
{
}

/// The key schedule starts from the identity permutation with `j` at zero.
pub proof fn lemma_ksa_start(key: Seq<char>)
    ensures
        ksa(key, 0).1 == 0,
        forall|k: int| 0 <= k < 256 ==> #[trigger] ksa(key, 0).0[k] == k,
        ksa(key, 0).0.len() == 256,
{
}

/// The key is used cyclically: a key and any text made of whole repetitions of it set up the
/// same generator.
pub proof fn lemma_init_cyclic_key(key: Seq<char>, long: Seq<char>)
    requires
        key.len() > 0,
        long.len() > 0,
        long.len() % key.len() == 0,
        forall|i: int| 0 <= i < long.len() ==> #[trigger] long[i] == key[i % (key.len() as int)],
    ensures
        init_state(long) == init_state(key),
{
    let l = key.len() as int;
    let m = long.len() as int;
    vstd::arithmetic::div_mod::lemma_fundamental_div_mod(m, l);
    assert(l * (m / l) == m);
    assert(m / l > 0) by (nonlinear_arith)
        requires
            l * (m / l) == m,
            m > 0,
            l > 0,
    ;
    assert forall|i: int| 0 <= i < 256 implies key_char(long, i) == key_char(key, i) by {
        vstd::arithmetic::div_mod::lemma_mod_mod(i, l, m / l);
        assert(0 <= i % m < m);
    }
    lemma_ksa_same_keys(key, long, 256);
}

proof fn lemma_ksa_same_keys(a: Seq<char>, b: Seq<char>, n: nat)
    requires
        n <= 256,
        forall|i: int| 0 <= i < 256 ==> key_char(a, i) == key_char(b, i),
    ensures
        ksa(a, n) == ksa(b, n),
    decreases n,
{
    if n > 0 {
        lemma_ksa_same_keys(a, b, (n - 1) as nat);
        assert(key_char(a, n - 1) == key_char(b, n - 1));
    }
}

/// One generator step: `j` moves on by one modulo 256, `i` moves on by the entry at the new `j`,
/// the entries at the new `i` and `j` are exchanged, and the output is the entry at the sum of
/// the two exchanged entries, modulo 256.
pub proof fn lemma_step_law(v: Rc4View)
    ensures
        ({
            let j = (v.j + 1) % 256;
            let i = (v.i + v.s[j]) % 256;
            let s = v.s.update(i, v.s[j]).update(j, v.s[i]);
            &&& prga_step(v).j == j
            &&& prga_step(v).i == i
            &&& prga_step(v).s == s
            &&& prga_output(v) == s[(s[i] + s[j]) % 256]
        }),
{
}

/// `j` counts the steps modulo 256: after `n` steps it has moved on by `n`.
pub proof fn lemma_advance_j(v: Rc4View, n: nat)
    requires
        v.j < 256,
    ensures
        advance(v, n).j == (v.j + n) % 256,
    decreases n,
{
    if n > 0 {
        lemma_advance_j(v, (n - 1) as nat);
    }
}

/// The `x`-th keystream value is the output of the step taken from the state `x` steps on.
pub proof fn lemma_keystream_index(v: Rc4View, n: nat, x: int)
    requires
        0 <= x < n,
    ensures
        keystream(v, n)[x] == prga_output(advance(v, x as nat)),
    decreases n,
{
    lemma_keystream_len(v, (n - 1) as nat);
    if x < n - 1 {
        lemma_keystream_index(v, (n - 1) as nat, x);
    }
}

/// Each character of an encrypted text has as low byte the exclusive or of the message
/// character's low byte and the keystream value produced at its position, and the text has the
/// message's length.
pub proof fn lemma_translate_law(v: Rc4View, msg: Seq<char>, x: int)
    requires
        0 <= x < msg.len(),
    ensures
        rc4_translate(v, msg).len() == msg.len(),
        rc4_translate(v, msg)[x] as u8 == (msg[x] as u8) ^ (prga_output(advance(v, x as nat))
            as u8),
        (rc4_translate(v, msg)[x] as int) < 256,
{
    lemma_keystream_index(v, msg.len(), x);
    lemma_crypt_char_byte(msg[x], keystream(v, msg.len())[x]);
    let b: u8 = (msg[x] as u8) ^ (keystream(v, msg.len())[x] as u8);
    assert((b as char) as int == b as int);
}

/// A key sets up the state of the full 256-step schedule, with both indices at zero.
pub proof fn lemma_init_law(key: Seq<char>)
    ensures
        init_state(key).s == ksa(key, 256).0,
        init_state(key).i == 0,
        init_state(key).j == 0,
{
}

/// An RC4 generator: a permutation of the byte values and two indices into it.
#[derive(Clone, Copy)]
pub struct Rc4 {
    s: [usize; 256],
    i: usize,
    j: usize,
}

impl View for Rc4 {
    type V = Rc4View;

    closed spec fn view(&self) -> Rc4View {
        Rc4View { s: self.s@, i: self.i, j: self.j }
    }
}

impl Rc4 {
    #[verifier::type_invariant]
    spec fn inv(self) -> bool {
        well_formed(self@)
    }

    /// Sets up a generator from `key` by the key schedule, with the key repeated as needed.
    pub fn init(key: &str) -> (r: Rc4)
        requires
            key@.len() > 0,
        ensures
            r@ == init_state(key@),
    {
        let kv = chars_of(key);
        let klen = kv.len();
        let mut s: [usize; 256] = [0usize; 256];
        for i in 0..256
            invariant
                forall|k: int| 0 <= k < i ==> s@[k] == k,
        {
            s[i] = i;
        }
        assert(s@ =~= identity_perm());
        let mut j: usize = 0;
        for i in 0..256
            invariant
                kv@ == key@,
                klen == kv@.len(),
                klen > 0,
                ksa(key@, i as nat) == (s@, j),
                j < 256,
                is_permutation(s@),
        {
            let c = kv[i % klen];
            let ghost prev = ksa(key@, i as nat);
            j = (j + s[i] + as_index(c)) % 256;
            assert(j == ((prev.1 + prev.0[i as int] + key_char(key@, i as int)) % 256) as usize);
            let tmp = s[i];
            let other = s[j];
            s[i] = other;
            s[j] = tmp;
            proof {
                lemma_swap_keeps_permutation(ksa(key@, i as nat).0, i as int, j as int);
                assert(s@ =~= swap_seq(ksa(key@, i as nat).0, i as int, j as int));
            }
        }
        Rc4 { s, i: 0, j: 0 }
    }

    /// Takes one step of the generator and returns the keystream value it produces.
    pub fn next_cipher(&mut self) -> (k: usize)
        ensures
            final(self)@ == prga_step(old(self)@),
            k == prga_output(old(self)@),
            k < 256,
            final(self)@.j == (old(self)@.j + 1) % 256,
    {
        proof {
            use_type_invariant(&*self);
            lemma_step_keeps_well_formed(self@);
        }
        let j = (self.j + 1) % 256;
        let i = (self.i + self.s[j]) % 256;
        let mut s = self.s;
        let tmp = s[i];
        let other = s[j];
        s[i] = other;
        s[j] = tmp;
        assert(s@ =~= swap_seq(self.s@, i as int, j as int));
        let t = (s[i] + s[j]) % 256;
        let k = s[t];
        self.s = s;
        self.i = i;
        self.j = j;
        k
    }

    /// The next keystream value; the stream never ends.
    pub fn next(&mut self) -> (r: Option<usize>)
        ensures
            final(self)@ == prga_step(old(self)@),
            r == Some(prga_output(old(self)@)),
    {
        Some(self.next_cipher())
    }

    /// Combines each character of `msg` with the next keystream value: the low byte of the
    /// character is exclusive-ored with the keystream byte. The generator moves on by one step
    /// per character.
    pub fn translate(&mut self, msg: &str) -> (r: String)
        ensures
            r@ == rc4_translate(old(self)@, msg@),
            final(self)@ == advance(old(self)@, msg@.len()),
            final(self)@.j == (old(self)@.j + msg@.len()) % 256,
    {
        proof {
            use_type_invariant(&*self);
            lemma_advance_j(self@, msg@.len());
        }
        let ghost start = self@;
        let mut res = String::new();
        for c in it: msg.chars()
            invariant
                it.seq() == msg@,
                self@ == advance(start, it.index() as nat),
                res@ == rc4_translate(start, msg@.take(it.index() as int)),
        {
            let ghost idx = it.index();
            let k = self.next_cipher();
            let out = crate::text::byte_char(low_byte(c) ^ (k as u8));
            push_char(&mut res, out);
            proof {
                let m1 = msg@.take(idx + 1);
                let m0 = msg@.take(idx as int);
                assert(keystream(start, (idx + 1) as nat) == keystream(start, idx as nat).push(
                    prga_output(advance(start, idx as nat)),
                ));
                lemma_keystream_len(start, idx as nat);
                assert(rc4_translate(start, m1) =~= rc4_translate(start, m0).push(out));
            }
        }
        assert(msg@.take(msg@.len() as int) =~= msg@);
        res
    }
}

} // verus!
