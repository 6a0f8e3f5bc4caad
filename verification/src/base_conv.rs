//! Writing integers in a radix, and reading them back from digit
//! characters.
use vstd::prelude::*;

verus! {

/// The digit characters `0-9` then `a-z`.
pub open spec fn digit_chars() -> Seq<char> {
    seq!['0', '1', '2', '3', '4', '5', '6', '7', '8', '9', 'a', 'b', 'c', 'd', 'e', 'f', 'g', 'h',
        'i', 'j', 'k', 'l', 'm', 'n', 'o', 'p', 'q', 'r', 's', 't', 'u', 'v', 'w', 'x', 'y', 'z']
}

/// Appends `c` (std's `String::push`): the text gains `c` at its end.
#[verifier::external_body]
fn push_char(s: &mut String, c: char)
    ensures
        final(s)@ == old(s)@.push(c),
{
    s.push(c)
}

/// The character of digit `num` in `radix`: `0-9` then `a-z` below the
/// radix, nothing from the radix on.
fn from_digit(num: u32, radix: u32) -> (c: Option<char>)
    requires
        2 <= radix <= 36,
    ensures
        c == if num < radix { Some(digit_chars()[num as int]) } else { None },
{
    let table: [char; 36] = ['0', '1', '2', '3', '4', '5', '6', '7', '8', '9', 'a', 'b', 'c', 'd', 'e',
        'f', 'g', 'h', 'i', 'j', 'k', 'l', 'm', 'n', 'o', 'p', 'q', 'r', 's', 't', 'u', 'v', 'w', 'x', 'y', 'z'];
    proof {
        assert(table@ =~= digit_chars());
    }
    if num < radix {
        Some(table[num as usize])
    } else {
        None
    }
}

/// The digits of `n` in base `b`, least significant first (none for `0`).
pub open spec fn digits_rev(n: nat, b: nat) -> Seq<nat>
    decreases n,
{
    if n == 0 || b < 2 {
        Seq::empty()
    } else {
        proof {
            assert(n / b < n) by (nonlinear_arith)
                requires
                    b >= 2,
                    n > 0,
            ;
        }
        seq![n % b].add(digits_rev(n / b, b))
    }
}

/// The characters `chars[d]` of the digits `ds`.
pub open spec fn spell(ds: Seq<nat>, chars: Seq<char>) -> Seq<char> {
    Seq::new(ds.len(), |i: int| chars[ds[i] as int])
}

/// `|n|` in base `b`, least significant digit first, spelled with `chars`;
/// a `-` before it for negative `n`, and `zero` alone for `0`.
pub open spec fn written(n: int, b: nat, chars: Seq<char>, zero: char) -> Seq<char> {
    let sign = if n < 0 { seq!['-'] } else { Seq::empty() };
    let m = if n < 0 { -n } else { n };
    if n == 0 {
        sign.push(zero)
    } else {
        sign + spell(digits_rev(m as nat, b), chars)
    }
}

proof fn lemma_digits_rev_bound(n: nat, b: nat)
    requires
        b >= 2,
    ensures
        forall|i: int| 0 <= i < digits_rev(n, b).len() ==> #[trigger] digits_rev(n, b)[i] < b,
    decreases n,
{
    if n > 0 {
        assert(n / b < n) by (nonlinear_arith)
            requires
                b >= 2,
                n > 0,
        ;
        lemma_digits_rev_bound(n / b, b);
        assert forall|i: int| 0 <= i < digits_rev(n, b).len() implies #[trigger] digits_rev(n, b)[i] < b by {
            if i > 0 {
                assert(digits_rev(n, b)[i] == digits_rev(n / b, b)[i - 1]);
            }
        }
    }
}

/// Pushes the digits of `m` in base `base` onto `res`, least significant
/// first, spelled with the characters of `radix` where `use_radix` holds,
/// else with `0-9a-z`.
fn push_digits(res: &mut String, m: i64, base: i64, chars: Ghost<Seq<char>>, radix: &[char], use_radix: bool)
    requires
        m >= 0,
        2 <= base <= 36,
        use_radix ==> radix@.len() == base,
        !use_radix ==> chars@ == digit_chars(),
        use_radix ==> chars@ == radix@,
    ensures
        final(res)@ == old(res)@ + spell(digits_rev(m as nat, base as nat), chars@),
{
    let ghost start = res@;
    let mut n = m;
    proof {
        lemma_digits_rev_bound(m as nat, base as nat);
        assert(start + spell(digits_rev(m as nat, base as nat), chars@).subrange(0, 0) =~= start);
    }
    let ghost mut k: int = 0;
    while n > 0
        invariant
            n >= 0,
            2 <= base <= 36,
            use_radix ==> radix@.len() == base,
            !use_radix ==> chars@ == digit_chars(),
            use_radix ==> chars@ == radix@,
            0 <= k <= digits_rev(m as nat, base as nat).len(),
            digits_rev(n as nat, base as nat) == digits_rev(m as nat, base as nat).subrange(k, digits_rev(m as nat, base as nat).len() as int),
            res@ == start + spell(digits_rev(m as nat, base as nat), chars@).subrange(0, k),
            forall|i: int| 0 <= i < digits_rev(m as nat, base as nat).len() ==> #[trigger] digits_rev(m as nat, base as nat)[i] < base,
        decreases n,
    {
        let d = n % base;
        let ghost ds = digits_rev(m as nat, base as nat);
        proof {
            assert(digits_rev(n as nat, base as nat)[0] == d);
            assert(digits_rev(n as nat, base as nat).len() > 0);
            assert(ds.subrange(k, ds.len() as int)[0] == ds[k]);
            assert(ds[k] == d);
            assert(digits_rev((n / base) as nat, base as nat) =~= ds.subrange(k + 1, ds.len() as int)) by {
                assert(digits_rev(n as nat, base as nat).drop_first() =~= digits_rev((n / base) as nat, base as nat));
            }
        }
        let c = if use_radix {
            radix[d as usize]
        } else {
            match from_digit(d as u32, base as u32) {
                Some(c) => c,
                None => {
                    proof {
                        assert(false);
                    }
                    '0'
                },
            }
        };
        push_char(res, c);
        proof {
            assert(res@ =~= start + spell(ds, chars@).subrange(0, k + 1));
            k = k + 1;
        }
        n = n / base;
    }
    proof {
        assert(digits_rev(0, base as nat).len() == 0);
        assert(k == digits_rev(m as nat, base as nat).len());
        assert(spell(digits_rev(m as nat, base as nat), chars@).subrange(0, k) =~= spell(digits_rev(m as nat, base as nat), chars@));
    }
}

/// `n` in base `radix.len()` with the digits `0-9a-z`, least significant
/// digit first, after a `-` for negative `n` (`0` for zero).
pub fn to_base(n: i64, radix: &[char]) -> (s: String)
    requires
        2 <= radix@.len() <= 36,
        n > i64::MIN,
    ensures
        s@ == written(n as int, radix@.len(), digit_chars(), '0'),
{
    let base = radix.len() as i64;
    let mut res = String::new();
    let mut m = n;
    if m < 0 {
        push_char(&mut res, '-');
        m = 0 - m;
    }
    if m == 0 {
        push_char(&mut res, '0');
    }
    let ghost before = res@;
    push_digits(&mut res, m, base, Ghost(digit_chars()), radix, false);
    proof {
        if n == 0 {
            assert(digits_rev(0, base as nat) =~= Seq::<nat>::empty());
            assert(res@ =~= before);
        }
    }
    res
}

/// `n` in base `radix.len()` spelled with the characters of `radix`,
/// least significant digit first, after a `-` for negative `n`
/// (`radix[0]` for zero).
pub fn to_base_digits(n: i64, radix: &[char]) -> (s: String)
    requires
        2 <= radix@.len() <= 36,
        n > i64::MIN,
    ensures
        s@ == written(n as int, radix@.len(), radix@, radix@[0]),
{
    let base = radix.len() as i64;
    let mut res = String::new();
    let mut m = n;
    if m < 0 {
        push_char(&mut res, '-');
        m = 0 - m;
    }
    if m == 0 {
        push_char(&mut res, radix[0]);
    }
    push_digits(&mut res, m, base, Ghost(radix@), radix, true);
    proof {
        if n == 0 {
            assert(digits_rev(0, base as nat) =~= Seq::<nat>::empty());
        }
    }
    res
}

/// `v` after reading the digit `d` against `radix[..j]`: each position `i`
/// of `radix` that holds `d` takes `v` to `v * radix.len() + i`.
pub open spec fn read_digit(v: int, d: char, radix: Seq<char>, j: nat) -> int
    decreases j,
{
    if j == 0 {
        v
    } else {
        let w = read_digit(v, d, radix, (j - 1) as nat);
        if radix[j - 1] == d {
            w * radix.len() + (j - 1)
        } else {
            w
        }
    }
}

/// The value read from `digits[..k]`, starting from `0`.
pub open spec fn read_digits(digits: Seq<char>, radix: Seq<char>, k: nat) -> int
    decreases k,
{
    if k == 0 {
        0
    } else {
        read_digit(read_digits(digits, radix, (k - 1) as nat), digits[k - 1], radix, radix.len())
    }
}

proof fn lemma_read_digit_grows(v: int, d: char, radix: Seq<char>, j: nat, k: nat)
    requires
        v >= 0,
        j <= k <= radix.len(),
    ensures
        v <= read_digit(v, d, radix, j) <= read_digit(v, d, radix, k),
    decreases k,
{
    if k > j {
        lemma_read_digit_grows(v, d, radix, j, (k - 1) as nat);
        let w = read_digit(v, d, radix, (k - 1) as nat);
        if radix[k - 1] == d {
            assert(w * radix.len() + (k - 1) >= w) by (nonlinear_arith)
                requires
                    w >= 0,
                    radix.len() >= 1,
                    k >= 1,
            ;
        }
    } else if j > 0 {
        lemma_read_digit_grows(v, d, radix, (j - 1) as nat, (j - 1) as nat);
        lemma_read_digit_grows(v, d, radix, 0, (j - 1) as nat);
        let w = read_digit(v, d, radix, (j - 1) as nat);
        if radix[j - 1] == d {
            assert(w * radix.len() + (j - 1) >= w) by (nonlinear_arith)
                requires
                    w >= 0,
                    radix.len() >= 1,
                    j >= 1,
            ;
        }
    }
}

proof fn lemma_read_digits_grow(digits: Seq<char>, radix: Seq<char>, j: nat, k: nat)
    requires
        j <= k <= digits.len(),
    ensures
        0 <= read_digits(digits, radix, j) <= read_digits(digits, radix, k),
    decreases k,
{
    if k > 0 {
        if j < k {
            lemma_read_digits_grow(digits, radix, j, (k - 1) as nat);
        } else {
            lemma_read_digits_grow(digits, radix, 0, (k - 1) as nat);
        }
        lemma_read_digit_grows(read_digits(digits, radix, (k - 1) as nat), digits[k - 1], radix, 0, radix.len());
    }
}

/// The number the characters `digits` spell in the radix `radix`, each
/// character counting as its position in `radix` (see `read_digits`).
pub fn from_base_digits(digits: &[char], radix: &[char]) -> (v: i64)
    requires
        radix@.len() <= i64::MAX,
        read_digits(digits@, radix@, digits@.len()) <= i64::MAX,
    ensures
        v == read_digits(digits@, radix@, digits@.len()),
{
    let base = radix.len() as i64;
    let mut value: i64 = 0;
    let mut k: usize = 0;
    while k < digits.len()
        invariant
            k <= digits@.len(),
            base == radix@.len(),
            read_digits(digits@, radix@, digits@.len()) <= i64::MAX,
            value == read_digits(digits@, radix@, k as nat),
        decreases digits@.len() - k,
    {
        let d = digits[k];
        proof {
            lemma_read_digits_grow(digits@, radix@, (k + 1) as nat, digits@.len());
            lemma_read_digits_grow(digits@, radix@, k as nat, k as nat);
        }
        let mut i: usize = 0;
        while i < radix.len()
            invariant
                i <= radix@.len(),
                base == radix@.len(),
                k < digits@.len(),
                d == digits@[k as int],
                read_digits(digits@, radix@, k as nat) >= 0,
                read_digits(digits@, radix@, (k + 1) as nat) <= i64::MAX,
                value == read_digit(read_digits(digits@, radix@, k as nat), d, radix@, i as nat),
            decreases radix@.len() - i,
        {
            proof {
                lemma_read_digit_grows(read_digits(digits@, radix@, k as nat), d, radix@, (i + 1) as nat, radix@.len());
                lemma_read_digit_grows(read_digits(digits@, radix@, k as nat), d, radix@, i as nat, i as nat);
            }
            if radix[i] == d {
                value = value * base + i as i64;
            }
            i += 1;
        }
        k += 1;
    }
    value
}

/// The value of `c` as a digit: `0-9`, then `a-z` or `A-Z` from ten on;
/// `36` for any other character.
pub open spec fn char_digit(c: char) -> int {
    if '0' <= c <= '9' {
        c as int - '0' as int
    } else if 'a' <= c <= 'z' {
        c as int - 'a' as int + 10
    } else if 'A' <= c <= 'Z' {
        c as int - 'A' as int + 10
    } else {
        36
    }
}

/// The number that the digits `ds` spell in base `b`, most significant first.
pub open spec fn digits_value(ds: Seq<char>, b: int) -> int
    decreases ds.len(),
{
    if ds.len() == 0 {
        0
    } else {
        digits_value(ds.drop_last(), b) * b + char_digit(ds.last())
    }
}

/// `s` has a leading sign character.
pub open spec fn has_sign(s: Seq<char>) -> bool {
    s.len() > 0 && (s[0] == '-' || s[0] == '+')
}

/// The digits of `s` after its sign, if it has one.
pub open spec fn unsigned_part(s: Seq<char>) -> Seq<char> {
    if has_sign(s) { s.drop_first() } else { s }
}

/// `s` is an optional sign followed by at least one digit below `b`.
pub open spec fn valid_in_base(s: Seq<char>, b: int) -> bool {
    &&& unsigned_part(s).len() > 0
    &&& forall|i: int| 0 <= i < unsigned_part(s).len() ==> #[trigger] char_digit(unsigned_part(s)[i]) < b
}

/// The signed number that `s` spells in base `b`.
pub open spec fn signed_value(s: Seq<char>, b: int) -> int {
    if s.len() > 0 && s[0] == '-' {
        -digits_value(unsigned_part(s), b)
    } else {
        digits_value(unsigned_part(s), b)
    }
}

proof fn lemma_digits_value_grows(ds: Seq<char>, b: int, k: int)
    requires
        b >= 2,
        0 <= k <= ds.len(),
        forall|i: int| 0 <= i < ds.len() ==> 0 <= #[trigger] char_digit(ds[i]) < b,
    ensures
        0 <= digits_value(ds.subrange(0, k), b) <= digits_value(ds, b),
    decreases ds.len() - k,
{
    if k < ds.len() {
        lemma_digits_value_grows(ds, b, k + 1);
        let p = ds.subrange(0, k + 1);
        assert(p.drop_last() =~= ds.subrange(0, k));
        assert(p.last() == ds[k]);
        let v = digits_value(ds.subrange(0, k), b);
        lemma_digits_value_nonneg(ds.subrange(0, k), b);
        assert(v * b >= v) by (nonlinear_arith)
            requires
                v >= 0,
                b >= 2,
        ;
    } else {
        assert(ds.subrange(0, k) =~= ds);
        lemma_digits_value_nonneg(ds, b);
    }
}

proof fn lemma_digits_value_nonneg(ds: Seq<char>, b: int)
    requires
        b >= 2,
        forall|i: int| 0 <= i < ds.len() ==> 0 <= #[trigger] char_digit(ds[i]) < b,
    ensures
        digits_value(ds, b) >= 0,
    decreases ds.len(),
{
    if ds.len() > 0 {
        let d = ds.drop_last();
        assert forall|i: int| 0 <= i < d.len() implies 0 <= #[trigger] char_digit(d[i]) < b by {
            assert(d[i] == ds[i]);
        }
        lemma_digits_value_nonneg(d, b);
        let v = digits_value(d, b);
        assert(char_digit(ds[ds.len() - 1]) >= 0);
        assert(v * b >= 0) by (nonlinear_arith)
            requires
                v >= 0,
                b >= 2,
        ;
    }
}

/// The digit value of `c`, as `char_digit` gives it.
fn digit_of(c: char) -> (d: u32)
    ensures
        d == char_digit(c),
{
    if '0' <= c && c <= '9' {
        (c as u32) - ('0' as u32)
    } else if 'a' <= c && c <= 'z' {
        (c as u32) - ('a' as u32) + 10
    } else if 'A' <= c && c <= 'Z' {
        (c as u32) - ('A' as u32) + 10
    } else {
        36
    }
}

/// The signed integer that `digits` spell in `base`: an optional `+` or `-`,
/// then digits `0-9`, `a-z` (or `A-Z`) below the base.
pub fn from_base(digits: &[char], base: u32) -> (v: i64)
    requires
        2 <= base <= 36,
        valid_in_base(digits@, base as int),
        i64::MIN <= signed_value(digits@, base as int) <= i64::MAX,
    ensures
        v == signed_value(digits@, base as int),
{
    let ghost s = digits@;
    let ghost body = unsigned_part(s);
    let negative = digits.len() > 0 && digits[0] == '-';
    let start: usize = if digits.len() > 0 && (digits[0] == '-' || digits[0] == '+') { 1 } else { 0 };
    proof {
        assert forall|i: int| 0 <= i < body.len() implies 0 <= #[trigger] char_digit(body[i]) < base by {
            assert(char_digit(body[i]) < base);
        }
        lemma_digits_value_grows(body, base as int, body.len() as int);
        assert(body.subrange(0, body.len() as int) =~= body);
        assert(digits_value(body, base as int) <= 0x8000_0000_0000_0000);
    }
    let mut mag: u64 = 0;
    let mut k: usize = start;
    while k < digits.len()
        invariant
            2 <= base <= 36,
            s == digits@,
            body == unsigned_part(s),
            start <= k <= digits@.len(),
            body.len() == digits@.len() - start,
            forall|i: int| 0 <= i < body.len() ==> body[i] == digits@[i + start],
            forall|i: int| 0 <= i < body.len() ==> 0 <= #[trigger] char_digit(body[i]) < base,
            digits_value(body, base as int) <= 0x8000_0000_0000_0000,
            mag == digits_value(body.subrange(0, k - start), base as int),
        decreases digits@.len() - k,
    {
        let ghost j: int = k - start;
        proof {
            lemma_digits_value_grows(body, base as int, j + 1);
            let p = body.subrange(0, j + 1);
            assert(p.drop_last() =~= body.subrange(0, j));
            assert(p.last() == digits@[k as int]);
        }
        let d = digit_of(digits[k]);
        mag = mag * (base as u64) + d as u64;
        k += 1;
    }
    proof {
        assert(body.subrange(0, k - start) =~= body);
    }
    if negative {
        if mag == 0x8000_0000_0000_0000 {
            i64::MIN
        } else {
            -(mag as i64)
        }
    } else {
        mag as i64
    }
}

} // verus!
