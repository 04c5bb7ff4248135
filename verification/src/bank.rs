//! Control digits and generated bank account numbers.
use vstd::prelude::*;

use crate::text::{byte_char, push_char};

verus! {

/// Weights of the check-digit scheme for seven-digit account prefixes.
pub open spec fn control_weight(i: int) -> int {
    if i == 0 || i == 4 {
        3
    } else if i == 1 || i == 5 {
        9
    } else if i == 2 || i == 6 {
        7
    } else {
        1
    }
}

/// The weighted sum `3*d0 + 9*d1 + 7*d2 + 1*d3 + 3*d4 + 9*d5 + 7*d6`.
pub open spec fn weighted_sum(nr: Seq<u8>) -> int
    decreases nr.len(),
{
    if nr.len() == 0 {
        0
    } else {
        weighted_sum(nr.drop_last()) + nr.last() * control_weight(nr.len() - 1)
    }
}

/// The control digit: the digit that brings the weighted sum to a multiple of ten.
pub open spec fn control_digit(nr: Seq<u8>) -> int {
    (10 - weighted_sum(nr) % 10) % 10
}

/// Computes the control digit of a seven-digit number: the digit that, added to the weighted
/// sum of the seven digits, gives a multiple of ten.
pub fn calculte_nr_control_number(nr: [u8; 7]) -> (r: u8)
    ensures
        r == control_digit(nr@),
        r < 10,
        (weighted_sum(nr@) + r) % 10 == 0,
        r == (10 - (3 * nr[0] + 9 * nr[1] + 7 * nr[2] + 1 * nr[3] + 3 * nr[4] + 9 * nr[5] + 7
            * nr[6]) % 10) % 10,
{
    let weights: [u16; 7] = [3, 9, 7, 1, 3, 9, 7];
    let mut sum: u16 = 0;
    for i in 0..7
        invariant
            sum == weighted_sum(nr@.take(i as int)),
            sum <= 2295 * i,
            weights@ == seq![3u16, 9, 7, 1, 3, 9, 7],
    {
        assert(nr@.take(i + 1).drop_last() == nr@.take(i as int));
        assert(weights[i as int] == control_weight(i as int));
        let d: u16 = nr[i] as u16;
        let w: u16 = weights[i];
        assert(d * w <= 2295) by (nonlinear_arith)
            requires
                d <= 255,
                w <= 9,
        ;
        sum = sum + d * w;
    }
    assert(nr@.take(7) == nr@);
    proof {
        lemma_weighted_sum_weights(nr@);
    }
    (10 - (sum % 10) as u8) % 10
}


// ---------------------------------------------------------------------------
// Account numbers
// ---------------------------------------------------------------------------

/// The number that a string of decimal digits denotes, most significant first.
pub open spec fn digits_value(d: Seq<u8>) -> int
    decreases d.len(),
{
    if d.len() == 0 {
        0
    } else {
        digits_value(d.drop_last()) * 10 + d.last()
    }
}

/// Every entry is a decimal digit.
pub open spec fn all_digits(d: Seq<u8>) -> bool {
    forall|k: int| 0 <= k < d.len() ==> #[trigger] d[k] < 10
}

/// The two check digits of an account with the given eight-digit settlement number and
/// sixteen-digit client number: 98 less the remainder by 97 of the 24 digits shifted five
/// places left, plus 212500.
pub open spec fn check_digits(settlement: Seq<u8>, client: Seq<u8>) -> int {
    98 - (digits_value(settlement + client) * 100000 + 212500) % 97
}

/// The character of a decimal digit.
pub open spec fn decimal_char(d: int) -> char {
    (48 + d) as char
}

/// The account number as text: the two check digits, then the settlement digits, then the
/// client digits.
pub open spec fn account_text(settlement: Seq<u8>, client: Seq<u8>) -> Seq<char> {
    let cd = check_digits(settlement, client);
    seq![decimal_char(cd / 10), decimal_char(cd % 10)] + (settlement + client).map_values(
        |d: u8| decimal_char(d as int),
    )
}

/// Ten to the power `n`.
pub open spec fn pow10(n: nat) -> int
    decreases n,
{
    if n == 0 {
        1
    } else {
        10 * pow10((n - 1) as nat)
    }
}

proof fn lemma_pow10_monotone(a: nat, b: nat)
    requires
        a <= b,
    ensures
        1 <= pow10(a) <= pow10(b),
    decreases b,
{
    if b > a {
        lemma_pow10_monotone(a, (b - 1) as nat);
    } else if a > 0 {
        lemma_pow10_monotone((a - 1) as nat, (a - 1) as nat);
    }
}

/// Writes the account number with the given settlement and client digits, check digits first.
pub fn bank_number(settlement: &[u8; 8], client: &[u8; 16]) -> (r: String)
    requires
        all_digits(settlement@),
        all_digits(client@),
    ensures
        r@ == account_text(settlement@, client@),
        2 <= check_digits(settlement@, client@) <= 98,
        (digits_value(settlement@ + client@) * 100000 + 212500 + check_digits(settlement@, client@))
            % 97 == 1,
{
    let mut digits: Vec<u8> = Vec::new();
    for i in 0..8
        invariant
            digits@ =~= settlement@.take(i as int),
    {
        digits.push(settlement[i]);
    }
    for i in 0..16
        invariant
            digits@ =~= settlement@ + client@.take(i as int),
    {
        digits.push(client[i]);
    }
    let ghost all = settlement@ + client@;
    assert(digits@ =~= all);
    assert(all_digits(all)) by {
        assert forall|k: int| 0 <= k < all.len() implies #[trigger] all[k] < 10 by {
            if k < 8 {
                assert(all[k] == settlement@[k]);
            } else {
                assert(all[k] == client@[k - 8]);
            }
        }
    }
    proof {
        reveal_with_fuel(pow10, 25);
        assert(pow10(24) == 1000000000000000000000000);
    }
    let mut acc: u128 = 0;
    for i in 0..24
        invariant
            digits@ == all,
            all.len() == 24,
            all_digits(all),
            acc == digits_value(all.take(i as int)),
            0 <= acc < pow10(i as nat),
            pow10(24) == 1000000000000000000000000,
    {
        proof {
            assert(all.take(i + 1).drop_last() =~= all.take(i as int));
            lemma_pow10_monotone((i + 1) as nat, 24);
            assert(all[i as int] < 10);
        }
        acc = acc * 10 + digits[i] as u128;
    }
    assert(all.take(24) =~= all);
    let x: u128 = acc * 100000 + 212500;
    let cd: u128 = 98 - x % 97;
    assert((x + cd) % 97 == 1);
    let hi: u8 = (cd / 10) as u8;
    let lo: u8 = (cd % 10) as u8;
    let mut res = String::new();
    push_char(&mut res, byte_char(48 + hi));
    push_char(&mut res, byte_char(48 + lo));
    for k in 0..24
        invariant
            digits@ == all,
            all.len() == 24,
            all_digits(all),
            res@ =~= seq![decimal_char(cd as int / 10), decimal_char(cd as int % 10)] + all.take(k as int).map_values(
                |d: u8| decimal_char(d as int),
            ),
    {
        assert(all[k as int] < 10);
        push_char(&mut res, byte_char(48 + digits[k]));
        assert(all.take(k + 1).map_values(|d: u8| decimal_char(d as int)) =~= all.take(
            k as int,
        ).map_values(|d: u8| decimal_char(d as int)).push(decimal_char(all[k as int] as int)));
    }
    assert(all.take(24) =~= all);
    res
}


/// `rand::Rng::gen_range(0..high)` on `rand::thread_rng()`: a value drawn uniformly from
/// `0..high`. Which value comes out is left open; the result is below `high`. (Drawing panics
/// only when the range is empty, which `requires` rules out, or when the operating system's
/// random source cannot seed the generator.)
#[verifier::external_body]
fn random_below(high: u8) -> (r: u8)
    requires
        high > 0,
    ensures
        r < high,
{
    rand::Rng::gen_range(&mut rand::thread_rng(), 0..high)
}

/// The settlement numbers of the five banks that accounts are generated for.
pub open spec fn settlement_code(b: int) -> Seq<u8> {
    if b == 0 {
        seq![1u8, 0, 1, 0, 0, 0, 0, 0]
    } else if b == 1 {
        seq![1u8, 1, 6, 0, 0, 0, 0, 6]
    } else if b == 2 {
        seq![1u8, 0, 5, 0, 0, 0, 0, 2]
    } else if b == 3 {
        seq![2u8, 1, 2, 0, 0, 0, 0, 1]
    } else {
        seq![1u8, 0, 2, 0, 0, 0, 0, 3]
    }
}

/// `text` is an account number of bank `b` with some sixteen decimal client digits.
pub open spec fn is_account_of(text: Seq<char>, b: int) -> bool {
    exists|client: Seq<u8>|
        client.len() == 16 && all_digits(client) && text == #[trigger] account_text(
            settlement_code(b),
            client,
        )
}

/// Entry `x` of `numbers` is an account of bank `x / q` with some sixteen client digits.
pub open spec fn generated_accounts(numbers: Seq<String>, q: int) -> bool {
    forall|x: int| 0 <= x < numbers.len() ==> is_account_of((#[trigger] numbers[x])@, x / q)
}

/// Account `x` of `q` per bank is an account of bank `x / q` whose client digits are the sixteen
/// digits `draws[16 * x .. 16 * x + 16]`.
pub open spec fn accounts_from_draws(numbers: Seq<String>, q: int, draws: Seq<u8>) -> bool {
    forall|x: int|
        0 <= x < numbers.len() ==> (#[trigger] numbers[x])@ == account_text(
            settlement_code(x / q),
            draws.subrange(16 * x, 16 * x + 16),
        )
}

/// Writes `q` accounts for each of the five banks, bank by bank, taking the client digits of
/// each account from the next sixteen digits of `draws`.
pub fn bank_numbers_from_draws(q: usize, draws: &Vec<u8>) -> (r: Vec<String>)
    requires
        draws@.len() == 80 * q,
        all_digits(draws@),
    ensures
        r@.len() == 5 * q,
        accounts_from_draws(r@, q as int, draws@),
{
    let numery_rozliczeniowe: [[u8; 8]; 5] = [
        [1, 0, 1, 0, 0, 0, 0, 0],
        [1, 1, 6, 0, 0, 0, 0, 6],
        [1, 0, 5, 0, 0, 0, 0, 2],
        [2, 1, 2, 0, 0, 0, 0, 1],
        [1, 0, 2, 0, 0, 0, 0, 3],
    ];
    let total = draws.len();
    let mut bank_numbers: Vec<String> = Vec::new();
    let mut next: usize = 0;
    assert(0 * (q as int) == 0);
    for b in 0..5usize
        invariant
            draws@.len() == 80 * q,
            total == draws@.len(),
            all_digits(draws@),
            bank_numbers@.len() == (b as int) * (q as int),
            next == 16 * bank_numbers@.len(),
            forall|k: int| 0 <= k < 5 ==> (#[trigger] numery_rozliczeniowe@[k])@ == settlement_code(k),
            accounts_from_draws(bank_numbers@, q as int, draws@),
    {
        let nr = numery_rozliczeniowe[b];
        assert(nr@ == settlement_code(b as int));
        assert(all_digits(nr@));
        for t in 0..q
            invariant
                draws@.len() == 80 * q,
                total == draws@.len(),
                all_digits(draws@),
                b < 5,
                bank_numbers@.len() == (b as int) * (q as int) + t,
                next == 16 * bank_numbers@.len(),
                nr@ == settlement_code(b as int),
                all_digits(nr@),
                accounts_from_draws(bank_numbers@, q as int, draws@),
        {
            let ghost x = bank_numbers@.len() as int;
            assert(x < 5 * q) by (nonlinear_arith)
                requires
                    x == (b as int) * (q as int) + t,
                    t < q,
                    b < 5,
            ;
            let mut client_number: [u8; 16] = [0u8; 16];
            for i in 0..16
                invariant
                    draws@.len() == 80 * q,
                    all_digits(draws@),
                    next == 16 * x,
                    x < 5 * q,
                    all_digits(client_number@),
                    forall|k: int| 0 <= k < i ==> client_number@[k] == draws@[16 * x + k],
            {
                client_number[i] = draws[next + i];
            }
            assert(client_number@ =~= draws@.subrange(16 * x, 16 * x + 16));
            let number = bank_number(&nr, &client_number);
            let ghost old_numbers = bank_numbers@;
            bank_numbers.push(number);
            assert(16 * (x + 1) <= 80 * q) by (nonlinear_arith)
                requires
                    x < 5 * q,
            ;
            next = next + 16;
            proof {
                assert(x / (q as int) == b) by (nonlinear_arith)
                    requires
                        x == (b as int) * (q as int) + t,
                        0 <= t < q,
                        0 <= b,
                ;
                assert forall|y: int| 0 <= y < bank_numbers@.len() implies (#[trigger] bank_numbers@[y])@
                    == account_text(
                    settlement_code(y / (q as int)),
                    draws@.subrange(16 * y, 16 * y + 16),
                ) by {
                    if y < x {
                        assert(bank_numbers@[y] == old_numbers[y]);
                    }
                }
            }
        }
        assert((b as int + 1) * (q as int) == (b as int) * (q as int) + q) by (nonlinear_arith);
    }
    bank_numbers
}

/// Generates `q` account numbers for each of five banks, bank by bank. Each account gets sixteen
/// client digits of its own, drawn from the random source in order; every account number is
/// written from its bank's settlement number and those digits.
pub fn gen_bank_numbers(q: usize) -> (r: Vec<String>)
    ensures
        r@.len() == 5 * q,
        generated_accounts(r@, q as int),
        exists|draws: Seq<u8>|
            draws.len() == 80 * q && all_digits(draws) && #[trigger] accounts_from_draws(
                r@,
                q as int,
                draws,
            ),
{
    let mut draws: Vec<u8> = Vec::new();
    assert(0 * (q as int) == 0);
    for b in 0..5usize
        invariant
            draws@.len() == 16 * ((b as int) * (q as int)),
            all_digits(draws@),
    {
        for t in 0..q
            invariant
                draws@.len() == 16 * ((b as int) * (q as int) + t),
                all_digits(draws@),
        {
            for i in 0..16
                invariant
                    draws@.len() == 16 * ((b as int) * (q as int) + t) + i,
                    all_digits(draws@),
            {
                let d = random_below(10);
                draws.push(d);
            }
        }
        assert(16 * ((b as int + 1) * (q as int)) == 16 * ((b as int) * (q as int) + q))
            by (nonlinear_arith);
    }
    assert(16 * (5 * (q as int)) == 80 * q);
    let r = bank_numbers_from_draws(q, &draws);
    proof {
        assert forall|x: int| 0 <= x < r@.len() implies is_account_of(
            (#[trigger] r@[x])@,
            x / (q as int),
        ) by {
            let client = draws@.subrange(16 * x, 16 * x + 16);
            assert(r@[x]@ == account_text(settlement_code(x / (q as int)), client));
            assert(x < 5 * q);
            assert(16 * x + 16 <= 80 * q);
            assert(all_digits(client));
        }
        assert(generated_accounts(r@, q as int));
    }
    r
}


/// The weighted sum of seven digits uses the weights 3, 9, 7, 1, 3, 9, 7 in that order.
pub proof fn lemma_weighted_sum_weights(nr: Seq<u8>)
    requires
        nr.len() == 7,
    ensures
        weighted_sum(nr) == 3 * nr[0] + 9 * nr[1] + 7 * nr[2] + 1 * nr[3] + 3 * nr[4] + 9 * nr[5]
            + 7 * nr[6],
{
    reveal_with_fuel(weighted_sum, 8);
    assert(nr.drop_last().drop_last().drop_last().drop_last().drop_last().drop_last().drop_last()
        =~= Seq::<u8>::empty());
}

/// Each of the five settlement numbers that accounts are generated for ends in the control digit
/// of its first seven digits.
pub proof fn lemma_settlement_codes_checked(b: int)
    requires
        0 <= b < 5,
    ensures
        settlement_code(b)[7] == (10 - (3 * settlement_code(b)[0] + 9 * settlement_code(b)[1] + 7
            * settlement_code(b)[2] + 1 * settlement_code(b)[3] + 3 * settlement_code(b)[4] + 9
            * settlement_code(b)[5] + 7 * settlement_code(b)[6]) % 10) % 10,
        settlement_code(b)[7] == control_digit(settlement_code(b).take(7)),
{
    lemma_weighted_sum_weights(settlement_code(b).take(7));
}


/// An account number determines its client digits: accounts written from different client
/// digits differ.
pub proof fn lemma_account_text_determines_client(settlement: Seq<u8>, c1: Seq<u8>, c2: Seq<u8>)
    requires
        settlement.len() == 8,
        c1.len() == 16,
        c2.len() == 16,
        all_digits(c1),
        all_digits(c2),
        account_text(settlement, c1) == account_text(settlement, c2),
    ensures
        c1 == c2,
{
    assert forall|k: int| 0 <= k < 16 implies c1[k] == c2[k] by {
        let t1 = account_text(settlement, c1);
        let t2 = account_text(settlement, c2);
        assert(t1[10 + k] == t2[10 + k]);
        assert((settlement + c1)[8 + k] == c1[k]);
        assert((settlement + c2)[8 + k] == c2[k]);
        assert(t1[10 + k] == decimal_char(c1[k] as int));
        assert(t2[10 + k] == decimal_char(c2[k] as int));
        assert(decimal_char(c1[k] as int) as int == 48 + c1[k]);
        assert(decimal_char(c2[k] as int) as int == 48 + c2[k]);
    }
    assert(c1 =~= c2);
}

} // verus!
