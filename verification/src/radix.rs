//! Fixed-width positional numerals in bases 2 to 16, as text.
//!
//! `radix_text` renders a number with a fixed count of digits, most
//! significant first; `radix_number` reads a numeral back. Both are stated on
//! sequences of characters; the executable routines work on ASCII strings.

use vstd::prelude::*;
use vstd::string::*;

verus! {

/// `base` to the power `n`.
pub open spec fn power(base: nat, n: nat) -> nat
    decreases n,
{
    if n == 0 {
        1
    } else {
        base * power(base, (n - 1) as nat)
    }
}

/// The character that stands for the digit `d`: `0`-`9`, then lower-case `a`-`f`.
pub open spec fn digit_char(d: nat) -> char {
    if d < 10 {
        (48 + d) as char
    } else {
        (87 + d) as char
    }
}

/// The digit that `c` stands for in `base`, if any. Letters are accepted in
/// both cases.
pub open spec fn digit_value(c: char, base: nat) -> Option<nat> {
    let code = c as int;
    let v = if 48 <= code <= 57 {
        code - 48
    } else if 97 <= code <= 102 {
        code - 87
    } else if 65 <= code <= 70 {
        code - 55
    } else {
        -1
    };
    if 0 <= v < base {
        Some(v as nat)
    } else {
        None
    }
}

/// The `n` least significant digits of `v` in `base`, most significant first.
pub open spec fn radix_text(v: nat, base: nat, n: nat) -> Seq<char>
    decreases n,
{
    if n == 0 {
        Seq::empty()
    } else {
        radix_text(v / base, base, (n - 1) as nat).push(digit_char(v % base))
    }
}

/// The number that the numeral `s` denotes in `base`; `None` if some
/// character is no digit of that base. The empty numeral denotes 0.
pub open spec fn radix_number(s: Seq<char>, base: nat) -> Option<nat>
    decreases s.len(),
{
    if s.len() == 0 {
        Some(0)
    } else {
        match (radix_number(s.drop_last(), base), digit_value(s.last(), base)) {
            (Some(high), Some(d)) => Some(high * base + d),
            _ => None,
        }
    }
}

/// `o`, if it is a number no greater than `limit`.
pub open spec fn within(o: Option<nat>, limit: nat) -> Option<nat> {
    match o {
        Some(v) => if v <= limit {
            Some(v)
        } else {
            None
        },
        None => None,
    }
}

/// `v` with its `k` least significant digits removed.
pub open spec fn drop_digits(v: nat, base: nat, k: nat) -> nat
    decreases k,
{
    if k == 0 {
        v
    } else {
        drop_digits(v, base, (k - 1) as nat) / base
    }
}

/// A numeral has as many characters as it was given digits.
pub proof fn lemma_radix_text_len(v: nat, base: nat, n: nat)
    requires
        base > 0,
    ensures
        radix_text(v, base, n).len() == n,
    decreases n,
{
    if n > 0 {
        lemma_radix_text_len(v / base, base, (n - 1) as nat);
        assert(radix_text(v, base, n) == radix_text(v / base, base, (n - 1) as nat).push(
            digit_char(v % base),
        ));
    } else {
        assert(radix_text(v, base, n) == Seq::<char>::empty());
    }
}

/// Removing one digit first and `k` more after is removing `k + 1`.
proof fn lemma_drop_digits_shift(v: nat, base: nat, k: nat)
    requires
        base > 0,
    ensures
        drop_digits(v / base, base, k) == drop_digits(v, base, k + 1),
    decreases k,
{
    if k > 0 {
        lemma_drop_digits_shift(v, base, (k - 1) as nat);
    } else {
        assert(drop_digits(v, base, 1) == drop_digits(v, base, 0) / base);
    }
}

/// One more digit at the front of a numeral is the next digit of the number.
proof fn lemma_radix_text_front(v: nat, base: nat, k: nat)
    requires
        base > 0,
    ensures
        radix_text(v, base, k + 1) =~= seq![digit_char(drop_digits(v, base, k) % base)]
            + radix_text(v, base, k),
    decreases k,
{
    if k > 0 {
        lemma_radix_text_front(v / base, base, (k - 1) as nat);
        lemma_drop_digits_shift(v, base, (k - 1) as nat);
        lemma_radix_text_len(v / base, base, (k - 1) as nat);
    } else {
        assert(radix_text(v / base, base, 0) =~= Seq::<char>::empty());
        assert(radix_text(v, base, 1) =~= radix_text(v / base, base, 0).push(
            digit_char(v % base),
        ));
    }
}

/// Every digit of a base up to 16 reads back as itself.
pub proof fn lemma_digit_round_trip(d: nat, base: nat)
    requires
        d < base <= 16,
    ensures
        digit_value(digit_char(d), base) == Some(d),
{
}

/// Reading a numeral of `n` digits written for `v` gives `v` back, where `v`
/// has no more than `n` digits.
pub proof fn lemma_radix_round_trip(v: nat, base: nat, n: nat)
    requires
        2 <= base <= 16,
        v < power(base, n),
    ensures
        radix_number(radix_text(v, base, n), base) == Some(v),
    decreases n,
{
    if n > 0 {
        let rest = radix_text(v / base, base, (n - 1) as nat);
        assert(v / base < power(base, (n - 1) as nat)) by (nonlinear_arith)
            requires
                v < base * power(base, (n - 1) as nat),
                base >= 2,
        ;
        lemma_radix_round_trip(v / base, base, (n - 1) as nat);
        lemma_digit_round_trip(v % base, base);
        assert(radix_text(v, base, n).drop_last() =~= rest);
        assert((v / base) * base + v % base == v) by (nonlinear_arith)
            requires
                base >= 2,
        ;
    }
}

/// A numeral's prefix is a numeral too, and denotes no more than the whole.
pub proof fn lemma_radix_prefix(s: Seq<char>, base: nat, j: int)
    requires
        0 <= j <= s.len(),
        radix_number(s, base) is Some,
    ensures
        radix_number(s.take(j), base) is Some,
        radix_number(s.take(j), base)->0 <= radix_number(s, base)->0,
    decreases s.len(),
{
    if j == s.len() {
        assert(s.take(j) =~= s);
    } else {
        assert(s.drop_last().take(j) =~= s.take(j));
        lemma_radix_prefix(s.drop_last(), base, j);
        let high = radix_number(s.drop_last(), base)->0;
        assert(high <= high * base) by (nonlinear_arith)
            requires
                base >= 1 || high == 0,
        ;
    }
}

/// Every character of a numeral is a digit of its base.
pub proof fn lemma_radix_digits(s: Seq<char>, base: nat, i: int)
    requires
        0 <= i < s.len(),
        radix_number(s, base) is Some,
    ensures
        digit_value(s[i], base) is Some,
    decreases s.len(),
{
    if i < s.len() - 1 {
        lemma_radix_digits(s.drop_last(), base, i);
    }
}

/// Every character of a written numeral is a digit of its base.
pub proof fn lemma_radix_text_digits(v: nat, base: nat, n: nat, i: int)
    requires
        2 <= base <= 16,
        0 <= i < n,
    ensures
        radix_text(v, base, n).len() == n,
        digit_value(radix_text(v, base, n)[i], base) is Some,
    decreases n,
{
    lemma_radix_text_len(v, base, n);
    lemma_radix_text_len(v / base, base, (n - 1) as nat);
    if i < n - 1 {
        lemma_radix_text_digits(v / base, base, (n - 1) as nat, i);
    } else {
        lemma_digit_round_trip(v % base, base);
    }
}

/// `a` sorts before `b` as strings do: at the first place where they
/// differ `a` has the lesser character, or `a` ends there and `b` goes on.
pub open spec fn text_less(a: Seq<char>, b: Seq<char>) -> bool
    decreases a.len(),
{
    if b.len() == 0 {
        false
    } else if a.len() == 0 {
        true
    } else if a[0] != b[0] {
        a[0] < b[0]
    } else {
        text_less(a.drop_first(), b.drop_first())
    }
}

/// A common prefix does not change the order of two texts.
pub proof fn lemma_text_less_prefix(p: Seq<char>, a: Seq<char>, b: Seq<char>)
    ensures
        text_less(p + a, p + b) == text_less(a, b),
    decreases p.len(),
{
    if p.len() == 0 {
        assert(p + a =~= a);
        assert(p + b =~= b);
    } else {
        assert((p + a).drop_first() =~= p.drop_first() + a);
        assert((p + b).drop_first() =~= p.drop_first() + b);
        lemma_text_less_prefix(p.drop_first(), a, b);
    }
}

/// Of two texts of one length, the order is decided before their end,
/// whatever follows them.
pub proof fn lemma_text_less_extend(a: Seq<char>, b: Seq<char>, x: Seq<char>, y: Seq<char>)
    requires
        a.len() == b.len(),
        text_less(a, b),
    ensures
        text_less(a + x, b + y),
    decreases a.len(),
{
    if a.len() > 0 {
        assert((a + x)[0] == a[0] && (b + y)[0] == b[0]);
        if a[0] == b[0] {
            assert((a + x).drop_first() =~= a.drop_first() + x);
            assert((b + y).drop_first() =~= b.drop_first() + y);
            lemma_text_less_extend(a.drop_first(), b.drop_first(), x, y);
        }
    }
}

/// The same character put in at the same place of two texts of one length
/// does not change their order.
pub proof fn lemma_text_less_insert(a: Seq<char>, b: Seq<char>, at: int, c: char)
    requires
        a.len() == b.len(),
        0 <= at <= a.len(),
        text_less(a, b),
    ensures
        text_less(a.insert(at, c), b.insert(at, c)),
    decreases at,
{
    if at == 0 {
        assert(a.insert(0, c) =~= seq![c] + a);
        assert(b.insert(0, c) =~= seq![c] + b);
        lemma_text_less_prefix(seq![c], a, b);
    } else {
        assert(a.insert(at, c)[0] == a[0] && b.insert(at, c)[0] == b[0]);
        if a[0] == b[0] {
            assert(a.insert(at, c).drop_first() =~= a.drop_first().insert(at - 1, c));
            assert(b.insert(at, c).drop_first() =~= b.drop_first().insert(at - 1, c));
            lemma_text_less_insert(a.drop_first(), b.drop_first(), at - 1, c);
        }
    }
}

/// Digits sort as their values do.
pub proof fn lemma_digit_char_order(c: nat, d: nat)
    requires
        c < d < 16,
    ensures
        digit_char(c) < digit_char(d),
{
}

/// Numerals of one width sort as the numbers they denote.
pub proof fn lemma_radix_text_order(v: nat, w: nat, base: nat, n: nat)
    requires
        2 <= base <= 16,
        v < w < power(base, n),
    ensures
        text_less(radix_text(v, base, n), radix_text(w, base, n)),
    decreases n,
{
    if n > 0 {
        let m = (n - 1) as nat;
        let a = radix_text(v / base, base, m);
        let b = radix_text(w / base, base, m);
        let x = seq![digit_char(v % base)];
        let y = seq![digit_char(w % base)];
        lemma_radix_text_len(v / base, base, m);
        lemma_radix_text_len(w / base, base, m);
        assert(radix_text(v, base, n) =~= a + x);
        assert(radix_text(w, base, n) =~= b + y);
        assert(w / base < power(base, m) && v / base <= w / base) by (nonlinear_arith)
            requires
                v < w,
                w < base * power(base, m),
                base >= 2,
        ;
        if v / base < w / base {
            lemma_radix_text_order(v / base, w / base, base, m);
            lemma_text_less_extend(a, b, x, y);
        } else {
            assert(v % base < w % base) by (nonlinear_arith)
                requires
                    v < w,
                    v / base == w / base,
                    base >= 2,
            ;
            lemma_digit_char_order(v % base, w % base);
            lemma_text_less_prefix(a, x, y);
            assert(text_less(x, y));
        }
    } else {
        assert(power(base, 0) == 1);
    }
}

/// If a prefix of `s` is no numeral, or denotes more than `limit`, so does `s`.
pub proof fn lemma_radix_prefix_fails(s: Seq<char>, base: nat, j: int, limit: nat)
    requires
        0 <= j <= s.len(),
        within(radix_number(s.take(j), base), limit) is None,
    ensures
        within(radix_number(s, base), limit) is None,
{
    if radix_number(s, base) is Some {
        lemma_radix_prefix(s, base, j);
    }
}

/// `String::push` of std appends the one character `c` to the string.
pub assume_specification[ String::push ](s: &mut String, c: char)
    ensures
        final(s)@ == old(s)@.push(c),
;

/// Appends the characters `from..to` of `chars` to `out`.
pub fn push_chars(out: &mut String, chars: &Vec<char>, from: usize, to: usize)
    requires
        from <= to <= chars.len(),
    ensures
        final(out)@ == old(out)@ + chars@.subrange(from as int, to as int),
{
    let mut i: usize = from;
    while i < to
        invariant
            from <= i <= to <= chars.len(),
            out@ =~= old(out)@ + chars@.subrange(from as int, i as int),
        decreases to - i,
    {
        out.push(chars[i]);
        i += 1;
    }
}

/// The character for the digit `d`.
pub fn digit_to_char(d: u8) -> (c: char)
    requires
        d < 16,
    ensures
        c == digit_char(d as nat),
{
    if d < 10 {
        (48u8 + d) as char
    } else {
        (87u8 + d) as char
    }
}

/// The digit that the ASCII byte `b` stands for in `base`, if any.
pub fn byte_to_digit(b: u8, base: u8) -> (r: Option<u8>)
    requires
        2 <= base <= 16,
    ensures
        match digit_value(b as char, base as nat) {
            Some(d) => r == Some(d as u8),
            None => r is None,
        },
{
    let v: u8 = if 48 <= b && b <= 57 {
        b - 48
    } else if 97 <= b && b <= 102 {
        b - 87
    } else if 65 <= b && b <= 70 {
        b - 55
    } else {
        return None;
    };
    if v < base {
        Some(v)
    } else {
        None
    }
}

/// The numeral of `width` digits for `v` in `base`.
pub fn radix_digits(v: u128, base: u8, width: usize) -> (r: Vec<char>)
    requires
        2 <= base <= 16,
    ensures
        r@ == radix_text(v as nat, base as nat, width as nat),
{
    let mut buf: Vec<char> = Vec::new();
    let mut i: usize = 0;
    while i < width
        invariant
            i <= width,
            buf.len() == i,
        decreases width - i,
    {
        buf.push('0');
        i += 1;
    }
    let mut rem: u128 = v;
    let mut k: usize = 0;
    while k < width
        invariant
            2 <= base <= 16,
            k <= width,
            buf.len() == width,
            rem == drop_digits(v as nat, base as nat, k as nat),
            buf@.subrange(width - k, width as int) =~= radix_text(
                v as nat,
                base as nat,
                k as nat,
            ),
        decreases width - k,
    {
        let ghost before = buf@;
        let d: u8 = (rem % (base as u128)) as u8;
        buf.set(width - 1 - k, digit_to_char(d));
        proof {
            lemma_radix_text_front(v as nat, base as nat, k as nat);
            lemma_radix_text_len(v as nat, base as nat, k as nat);
            assert(buf@.subrange(width - k, width as int) =~= before.subrange(
                width - k,
                width as int,
            ));
            assert(buf@.subrange(width - k - 1, width as int) =~= seq![digit_char(d as nat)]
                + buf@.subrange(width - k, width as int));
        }
        rem = rem / (base as u128);
        k += 1;
    }
    proof {
        assert(buf@.subrange(0, width as int) =~= buf@);
    }
    buf
}

/// Reads the characters `from..to` of `s` as further digits of a numeral
/// whose digits so far are `prefix`, with value `acc`. Returns the value of
/// the whole, unless some character is no digit or the value passes `limit`.
pub(crate) fn read_digits(
    s: &str,
    from: usize,
    to: usize,
    base: u8,
    acc: u128,
    limit: u128,
    Ghost(prefix): Ghost<Seq<char>>,
) -> (r: Option<u128>)
    requires
        s.is_ascii(),
        from <= to <= s@.len(),
        2 <= base <= 16,
        radix_number(prefix, base as nat) == Some(acc as nat),
        acc <= limit,
    ensures
        match within(
            radix_number(prefix + s@.subrange(from as int, to as int), base as nat),
            limit as nat,
        ) {
            Some(v) => r == Some(v as u128),
            None => r is None,
        },
{
    let ghost whole = prefix + s@.subrange(from as int, to as int);
    let mut acc: u128 = acc;
    let mut i: usize = from;
    proof {
        assert(whole.take(prefix.len() as int) =~= prefix);
    }
    while i < to
        invariant
            s.is_ascii(),
            from <= i <= to <= s@.len(),
            2 <= base <= 16,
            whole == prefix + s@.subrange(from as int, to as int),
            radix_number(whole.take(prefix.len() + i - from), base as nat) == Some(acc as nat),
            acc <= limit,
        decreases to - i,
    {
        let b = s.get_ascii(i);
        let ghost here = prefix.len() + i - from;
        proof {
            assert(whole[here] == s@[i as int]);
            assert(s@[i as int] == b as char);
            assert(whole.take(here + 1).drop_last() =~= whole.take(here));
            if radix_number(whole, base as nat) is Some {
                lemma_radix_prefix(whole, base as nat, here + 1);
            }
        }
        match byte_to_digit(b, base) {
            None => {
                return None;
            },
            Some(d) => {
                if d as u128 > limit || acc > (limit - d as u128) / (base as u128) {
                    proof {
                        if d as u128 <= limit {
                            assert(acc * base + d > limit) by (nonlinear_arith)
                                requires
                                    acc > (limit - d) / (base as int),
                                    base >= 2,
                                    d <= limit,
                            ;
                        }
                    }
                    return None;
                }
                proof {
                    assert(acc * base + d <= limit) by (nonlinear_arith)
                        requires
                            acc <= (limit - d) / (base as int),
                            base >= 2,
                            d <= limit,
                    ;
                }
                acc = acc * (base as u128) + d as u128;
            },
        }
        i += 1;
    }
    proof {
        assert(whole.take(prefix.len() + to - from) =~= whole);
    }
    Some(acc)
}

} // verus!
