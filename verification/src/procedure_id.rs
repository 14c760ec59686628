//! Procedure identifiers: 128-bit values, written as 32 hexadecimal digits in
//! groups of 8, 4, 4, 4 and 12 with a hyphen between the groups.

use vstd::prelude::*;
use vstd::string::*;
use crate::radix::{
    digit_value, lemma_radix_digits, lemma_radix_prefix_fails, lemma_radix_round_trip,
    lemma_radix_text_len, lemma_radix_text_order, lemma_text_less_insert, power, push_chars,
    radix_digits, radix_number, radix_text, read_digits, text_less, within,
};

verus! {

/// The identifier of one procedure instance, fixed for its whole life.
#[derive(Clone, Copy, Debug, PartialEq, Eq, Structural, Hash)]
pub struct ProcedureId {
    pub bits: u128,
}

/// Count of characters in an identifier's text.
pub const ID_TEXT_LEN: usize = 36;

/// The text of the identifier with the value `bits`: lower-case digits,
/// most significant first.
pub open spec fn id_text(bits: u128) -> Seq<char> {
    let h = radix_text(bits as nat, 16, 32);
    h.subrange(0, 8) + seq!['-'] + h.subrange(8, 12) + seq!['-'] + h.subrange(12, 16) + seq!['-']
        + h.subrange(16, 20) + seq!['-'] + h.subrange(20, 32)
}

/// The 32 digit positions of an identifier's text, hyphens left out.
pub open spec fn id_digits(s: Seq<char>) -> Seq<char> {
    s.subrange(0, 8) + s.subrange(9, 13) + s.subrange(14, 18) + s.subrange(19, 23) + s.subrange(
        24,
        36,
    )
}

/// The identifier that `s` spells, if it spells one: 36 characters, hyphens
/// at the four group boundaries, hexadecimal digits of either case elsewhere.
pub open spec fn parse_id(s: Seq<char>) -> Option<ProcedureId> {
    if s.len() == 36 && s[8] == '-' && s[13] == '-' && s[18] == '-' && s[23] == '-' {
        match within(radix_number(id_digits(s), 16), u128::MAX as nat) {
            Some(v) => Some(ProcedureId { bits: v as u128 }),
            None => None,
        }
    } else {
        None
    }
}

/// 32 hexadecimal digits hold exactly the 128-bit values.
pub proof fn lemma_power_16_32()
    ensures
        power(16, 32) == u128::MAX + 1,
{
    reveal_with_fuel(power, 9);
    assert(power(16, 8) == 0x1_0000_0000);
    assert(power(16, 16) == 0x1_0000_0000 * power(16, 8));
    assert(power(16, 24) == 0x1_0000_0000 * power(16, 16));
    assert(power(16, 32) == 0x1_0000_0000 * power(16, 24));
}

/// An identifier's text has 36 characters, none of them a path separator.
pub proof fn lemma_id_text_shape(bits: u128)
    ensures
        id_text(bits).len() == 36,
        id_digits(id_text(bits)) =~= radix_text(bits as nat, 16, 32),
        id_text(bits)[8] == '-' && id_text(bits)[13] == '-' && id_text(bits)[18] == '-'
            && id_text(bits)[23] == '-',
{
    lemma_radix_text_len(bits as nat, 16, 32);
}

/// Reading the text of an identifier gives the identifier back.
pub proof fn lemma_id_round_trip(id: ProcedureId)
    ensures
        parse_id(id_text(id.bits)) == Some(id),
{
    lemma_id_text_shape(id.bits);
    lemma_power_16_32();
    lemma_radix_round_trip(id.bits as nat, 16, 32);
}

/// An identifier's text is its 32 digits with a hyphen put in after the
/// 8th, 12th, 16th and 20th.
pub proof fn lemma_id_text_inserts(bits: u128)
    ensures
        id_text(bits) =~= radix_text(bits as nat, 16, 32).insert(8, '-').insert(13, '-').insert(
            18,
            '-',
        ).insert(23, '-'),
{
    lemma_radix_text_len(bits as nat, 16, 32);
}

/// Identifiers sort as their values do: the text of a lesser value comes
/// first as a string.
pub proof fn lemma_id_order(a: ProcedureId, b: ProcedureId)
    requires
        a.bits < b.bits,
    ensures
        text_less(id_text(a.bits), id_text(b.bits)),
{
    let x = radix_text(a.bits as nat, 16, 32);
    let y = radix_text(b.bits as nat, 16, 32);
    lemma_power_16_32();
    lemma_radix_text_len(a.bits as nat, 16, 32);
    lemma_radix_text_len(b.bits as nat, 16, 32);
    lemma_radix_text_order(a.bits as nat, b.bits as nat, 16, 32);
    lemma_text_less_insert(x, y, 8, '-');
    lemma_text_less_insert(x.insert(8, '-'), y.insert(8, '-'), 13, '-');
    lemma_text_less_insert(
        x.insert(8, '-').insert(13, '-'),
        y.insert(8, '-').insert(13, '-'),
        18,
        '-',
    );
    lemma_text_less_insert(
        x.insert(8, '-').insert(13, '-').insert(18, '-'),
        y.insert(8, '-').insert(13, '-').insert(18, '-'),
        23,
        '-',
    );
    lemma_id_text_inserts(a.bits);
    lemma_id_text_inserts(b.bits);
}

/// Every character of a text that spells an identifier is ASCII and is a
/// hexadecimal digit or a hyphen.
pub proof fn lemma_parse_id_chars(s: Seq<char>, i: int)
    requires
        parse_id(s) is Some,
        0 <= i < s.len(),
    ensures
        s[i] == '-' || digit_value(s[i], 16) is Some,
        s[i] <= '\u{7f}',
        s[i] != '/',
{
    let d = id_digits(s);
    if i == 8 || i == 13 || i == 18 || i == 23 {
    } else {
        let j = if i < 8 {
            i
        } else if i < 13 {
            i - 1
        } else if i < 18 {
            i - 2
        } else if i < 23 {
            i - 3
        } else {
            i - 4
        };
        assert(d[j] == s[i]);
        lemma_radix_digits(d, 16, j);
    }
}

impl ProcedureId {
    /// The identifier with the value `bits`.
    pub fn from_u128(bits: u128) -> (r: ProcedureId)
        ensures
            r.bits == bits,
    {
        ProcedureId { bits }
    }

    /// The identifier's value.
    pub fn as_u128(&self) -> (r: u128)
        ensures
            r == self.bits,
    {
        self.bits
    }

    /// The identifier's text.
    pub fn to_string(&self) -> (r: String)
        ensures
            r@ == id_text(self.bits),
    {
        let digits = radix_digits(self.bits, 16, 32);
        let mut out = String::new();
        proof {
            lemma_radix_text_len(self.bits as nat, 16, 32);
        }
        push_chars(&mut out, &digits, 0, 8);
        out.push('-');
        push_chars(&mut out, &digits, 8, 12);
        out.push('-');
        push_chars(&mut out, &digits, 12, 16);
        out.push('-');
        push_chars(&mut out, &digits, 16, 20);
        out.push('-');
        push_chars(&mut out, &digits, 20, 32);
        proof {
            assert(out@ =~= id_text(self.bits));
        }
        out
    }

    /// Reads an identifier from the characters `from..to` of an ASCII string.
    pub(crate) fn parse_range(s: &str, from: usize, to: usize) -> (r: Option<ProcedureId>)
        requires
            s.is_ascii(),
            from <= to <= s@.len(),
        ensures
            r == parse_id(s@.subrange(from as int, to as int)),
    {
        if to - from != ID_TEXT_LEN {
            return None;
        }
        let ghost sub = s@.subrange(from as int, to as int);
        let ghost d = id_digits(sub);
        if s.get_ascii(from + 8) != 45 || s.get_ascii(from + 13) != 45 || s.get_ascii(from + 18)
            != 45 || s.get_ascii(from + 23) != 45 {
            return None;
        }
        let limit: u128 = u128::MAX;
        proof {
            assert(d.take(8) =~= Seq::<char>::empty() + s@.subrange(from as int, from + 8));
            assert(d.take(12) =~= d.take(8) + s@.subrange(from + 9, from + 13));
            assert(d.take(16) =~= d.take(12) + s@.subrange(from + 14, from + 18));
            assert(d.take(20) =~= d.take(16) + s@.subrange(from + 19, from + 23));
            assert(d.take(32) =~= d.take(20) + s@.subrange(from + 24, from + 36));
            assert(d.take(32) =~= d);
        }
        let g0 = match read_digits(s, from, from + 8, 16, 0, limit, Ghost(Seq::empty())) {
            Some(v) => v,
            None => {
                proof {
                    lemma_radix_prefix_fails(d, 16, 8, limit as nat);
                }
                return None;
            },
        };
        let g1 = match read_digits(s, from + 9, from + 13, 16, g0, limit, Ghost(d.take(8))) {
            Some(v) => v,
            None => {
                proof {
                    lemma_radix_prefix_fails(d, 16, 12, limit as nat);
                }
                return None;
            },
        };
        let g2 = match read_digits(s, from + 14, from + 18, 16, g1, limit, Ghost(d.take(12))) {
            Some(v) => v,
            None => {
                proof {
                    lemma_radix_prefix_fails(d, 16, 16, limit as nat);
                }
                return None;
            },
        };
        let g3 = match read_digits(s, from + 19, from + 23, 16, g2, limit, Ghost(d.take(16))) {
            Some(v) => v,
            None => {
                proof {
                    lemma_radix_prefix_fails(d, 16, 20, limit as nat);
                }
                return None;
            },
        };
        match read_digits(s, from + 24, from + 36, 16, g3, limit, Ghost(d.take(20))) {
            Some(v) => Some(ProcedureId { bits: v }),
            None => None,
        }
    }

    /// Reads an identifier from its text; `None` if `input` spells none.
    pub fn parse_str(input: &str) -> (r: Option<ProcedureId>)
        ensures
            r == parse_id(input@),
    {
        if !input.is_ascii() {
            proof {
                if parse_id(input@) is Some {
                    assert forall|i: int| 0 <= i < input@.len() implies '\0' <= #[trigger] input@[i]
                        <= '\u{7f}' by {
                        lemma_parse_id_chars(input@, i);
                    }
                }
            }
            return None;
        }
        let n = ascii_len(input);
        proof {
            assert(input@.subrange(0, n as int) =~= input@);
        }
        ProcedureId::parse_range(input, 0, n)
    }
}

/// Count of the characters of an ASCII string.
pub(crate) fn ascii_len(s: &str) -> (n: usize)
    requires
        s.is_ascii(),
    ensures
        n == s@.len(),
{
    broadcast use is_ascii_spec_bytes;

    s.as_bytes().len()
}

} // verus!
