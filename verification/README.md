# rc4_cipher

RC4 encryption with tools for studying keystream reuse, verified with Verus.

- `src/rc4.rs`: the generator (`Rc4::init`, `next_cipher`, `translate`) against a
  specification of the key schedule and keystream; the state is always a permutation.
- `src/hex.rs`: hex dumps (`as_hex`) and reading them back (`as_num`, `as_char`).
- `src/analysis.rs`: combining ciphertexts (`xor`), counting small bytes, and listing the
  digits that can stand in each column of several ciphertexts under one keystream.
- `src/bank.rs`: control digits and randomly generated account numbers.
- `app/main.rs`: the demonstration program and the floating-point statistic.
