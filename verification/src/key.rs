//! The key codec: a procedure's identifier, a step number and the kind of
//! record, as one storage key whose text sorts as the numbers do.

use vstd::prelude::*;
use vstd::string::*;
use crate::procedure_id::{
    ascii_len, id_text, lemma_id_order, lemma_id_round_trip, lemma_id_text_shape,
    lemma_parse_id_chars, parse_id, ProcedureId,
};
use crate::radix::{
    lemma_radix_digits, lemma_radix_round_trip, lemma_radix_text_digits, lemma_radix_text_len,
    lemma_radix_text_order, lemma_text_less_extend, lemma_text_less_prefix, power, push_chars,
    radix_digits, radix_number, radix_text, read_digits, text_less, within,
};

verus! {

/// What a storage key says: whose record it is, at which step, and whether
/// it is a commit marker or a checkpoint.
#[derive(Clone, Copy, Debug, PartialEq, Eq, Structural)]
pub struct ParsedKey {
    pub procedure_id: ProcedureId,
    pub step: u32,
    pub is_committed: bool,
}

/// Count of digits that a step is written with.
pub const STEP_WIDTH: usize = 10;

/// The last part of a key: `commit` for a commit marker, `step` for a checkpoint.
pub open spec fn suffix_text(is_committed: bool) -> Seq<char> {
    if is_committed {
        seq!['c', 'o', 'm', 'm', 'i', 't']
    } else {
        seq!['s', 't', 'e', 'p']
    }
}

/// A step as ten decimal digits, padded with zeros on the left.
pub open spec fn step_text(step: u32) -> Seq<char> {
    radix_text(step as nat, 10, 10)
}

/// The storage key of `k`: identifier, `/`, step, `.`, suffix.
pub open spec fn key_text(k: ParsedKey) -> Seq<char> {
    id_text(k.procedure_id.bits) + seq!['/'] + step_text(k.step) + seq!['.'] + suffix_text(
        k.is_committed,
    )
}

/// The step that `s` spells: one or more decimal digits, after an optional
/// `+`, with a value that fits 32 bits.
pub open spec fn parse_step(s: Seq<char>) -> Option<u32> {
    let digits = if s.len() > 0 && s[0] == '+' {
        s.subrange(1, s.len() as int)
    } else {
        s
    };
    if digits.len() == 0 {
        None
    } else {
        match within(radix_number(digits, 10), u32::MAX as nat) {
            Some(v) => Some(v as u32),
            None => None,
        }
    }
}

/// The kind of record that the suffix `s` names.
pub open spec fn parse_suffix(s: Seq<char>) -> Option<bool> {
    if s == suffix_text(true) {
        Some(true)
    } else if s == suffix_text(false) {
        Some(false)
    } else {
        None
    }
}

/// What the key `s` says, if it is a key: the text before the last `/`
/// spells an identifier, and the text after it is a step, one `.` and a
/// suffix.
pub open spec fn parse_key(s: Seq<char>) -> Option<ParsedKey> {
    match s.index_of_last('/') {
        None => None,
        Some(slash) => {
            let name = s.subrange(slash + 1, s.len() as int);
            match name.index_of_first('.') {
                None => None,
                Some(dot) => match (
                    parse_id(s.subrange(0, slash)),
                    parse_step(name.subrange(0, dot)),
                    parse_suffix(name.subrange(dot + 1, name.len() as int)),
                ) {
                    (Some(procedure_id), Some(step), Some(is_committed)) => Some(
                        ParsedKey { procedure_id, step, is_committed },
                    ),
                    _ => None,
                },
            }
        },
    }
}

/// The two suffixes, character by character.
pub proof fn lemma_suffix_chars()
    ensures
        suffix_text(true).len() == 6,
        suffix_text(true)[0] == 'c' && suffix_text(true)[1] == 'o' && suffix_text(true)[2] == 'm'
            && suffix_text(true)[3] == 'm' && suffix_text(true)[4] == 'i' && suffix_text(true)[5]
            == 't',
        suffix_text(false).len() == 4,
        suffix_text(false)[0] == 's' && suffix_text(false)[1] == 't' && suffix_text(false)[2]
            == 'e' && suffix_text(false)[3] == 'p',
{
}

/// Where the last `c` of `s` stands, from what holds at and after `at`.
pub proof fn lemma_last_at(s: Seq<char>, c: char, at: int)
    requires
        0 <= at < s.len(),
        s[at] == c,
        forall|j: int| at < j < s.len() ==> s[j] != c,
    ensures
        s.index_of_last(c) == Some(at),
{
    s.index_of_last_ensures(c);
    assert(s.contains(c));
}

/// Where the first `c` of `s` stands, from what holds at and before `at`.
pub proof fn lemma_first_at(s: Seq<char>, c: char, at: int)
    requires
        0 <= at < s.len(),
        s[at] == c,
        forall|j: int| 0 <= j < at ==> s[j] != c,
    ensures
        s.index_of_first(c) == Some(at),
{
    s.index_of_first_ensures(c);
    assert(s.contains(c));
}

/// Ten decimal digits hold every 32-bit step.
pub proof fn lemma_power_10_10()
    ensures
        power(10, 10) == 10_000_000_000,
{
    reveal_with_fuel(power, 11);
}

/// Reading a written step gives the step back.
pub proof fn lemma_step_round_trip(step: u32)
    ensures
        parse_step(step_text(step)) == Some(step),
{
    lemma_power_10_10();
    lemma_radix_round_trip(step as nat, 10, 10);
    lemma_radix_text_digits(step as nat, 10, 10, 0);
}

/// Decoding the key of `k` gives `k` back, whatever identifier, step and
/// kind `k` holds.
pub proof fn lemma_key_round_trip(k: ParsedKey)
    ensures
        parse_key(key_text(k)) == Some(k),
{
    let s = key_text(k);
    let id = id_text(k.procedure_id.bits);
    let st = step_text(k.step);
    let suffix = suffix_text(k.is_committed);
    lemma_id_text_shape(k.procedure_id.bits);
    lemma_id_round_trip(k.procedure_id);
    lemma_step_round_trip(k.step);
    lemma_radix_text_digits(k.step as nat, 10, 10, 0);
    assert(s[36] == '/');
    assert forall|j: int| 36 < j < s.len() implies s[j] != '/' by {
        if j < 47 {
            lemma_radix_text_digits(k.step as nat, 10, 10, j - 37);
            assert(s[j] == st[j - 37]);
        } else if j > 47 {
            assert(s[j] == suffix[j - 48]);
        }
    }
    lemma_last_at(s, '/', 36);
    let name = s.subrange(37, s.len() as int);
    assert(name =~= st + seq!['.'] + suffix);
    assert(name[10] == '.');
    assert forall|j: int| 0 <= j < 10 implies name[j] != '.' by {
        lemma_radix_text_digits(k.step as nat, 10, 10, j);
        assert(name[j] == st[j]);
    }
    lemma_first_at(name, '.', 10);
    assert(s.subrange(0, 36) =~= id);
    assert(name.subrange(0, 10) =~= st);
    assert(name.subrange(11, name.len() as int) =~= suffix);
    assert(suffix_text(true).len() != suffix_text(false).len());
}

/// The keys of one procedure sort as its steps do: a key of a lesser step
/// comes first as a string, whatever kinds the two records have.
pub proof fn lemma_key_order(a: ParsedKey, b: ParsedKey)
    requires
        a.procedure_id == b.procedure_id,
        a.step < b.step,
    ensures
        text_less(key_text(a), key_text(b)),
{
    let head = id_text(a.procedure_id.bits) + seq!['/'];
    let rest_a = seq!['.'] + suffix_text(a.is_committed);
    let rest_b = seq!['.'] + suffix_text(b.is_committed);
    lemma_power_10_10();
    lemma_radix_text_order(a.step as nat, b.step as nat, 10, 10);
    lemma_radix_text_len(a.step as nat, 10, 10);
    lemma_radix_text_len(b.step as nat, 10, 10);
    lemma_text_less_extend(step_text(a.step), step_text(b.step), rest_a, rest_b);
    lemma_text_less_prefix(head, step_text(a.step) + rest_a, step_text(b.step) + rest_b);
    assert(key_text(a) =~= head + (step_text(a.step) + rest_a));
    assert(key_text(b) =~= head + (step_text(b.step) + rest_b));
}

/// Keys sort as the pairs of identifier and step do: a key of a lesser
/// identifier, or of the same identifier and a lesser step, comes first as a
/// string.
pub proof fn lemma_key_order_by_id_and_step(a: ParsedKey, b: ParsedKey)
    requires
        a.procedure_id.bits < b.procedure_id.bits || (a.procedure_id == b.procedure_id && a.step
            < b.step),
    ensures
        text_less(key_text(a), key_text(b)),
{
    if a.procedure_id.bits < b.procedure_id.bits {
        let rest_a = seq!['/'] + step_text(a.step) + seq!['.'] + suffix_text(a.is_committed);
        let rest_b = seq!['/'] + step_text(b.step) + seq!['.'] + suffix_text(b.is_committed);
        lemma_id_order(a.procedure_id, b.procedure_id);
        lemma_id_text_shape(a.procedure_id.bits);
        lemma_id_text_shape(b.procedure_id.bits);
        lemma_text_less_extend(
            id_text(a.procedure_id.bits),
            id_text(b.procedure_id.bits),
            rest_a,
            rest_b,
        );
        assert(key_text(a) =~= id_text(a.procedure_id.bits) + rest_a);
        assert(key_text(b) =~= id_text(b.procedure_id.bits) + rest_b);
    } else {
        lemma_key_order(a, b);
    }
}

/// Every key has the one shape: 36 characters that spell its identifier,
/// `/`, a spelling of its step, `.`, and its suffix, with nothing before,
/// between or after them.
pub proof fn lemma_key_shape(s: Seq<char>, k: ParsedKey)
    requires
        parse_key(s) == Some(k),
    ensures
        ({
            let dot = s.len() - suffix_text(k.is_committed).len() - 1;
            &&& 37 < dot < s.len()
            &&& s =~= s.subrange(0, 36) + seq!['/'] + s.subrange(37, dot) + seq!['.']
                + suffix_text(k.is_committed)
            &&& parse_id(s.subrange(0, 36)) == Some(k.procedure_id)
            &&& parse_step(s.subrange(37, dot)) == Some(k.step)
        }),
{
    s.index_of_last_ensures('/');
    let slash = s.index_of_last('/')->0;
    let name = s.subrange(slash + 1, s.len() as int);
    name.index_of_first_ensures('.');
    let at = name.index_of_first('.')->0;
    let suffix = name.subrange(at + 1, name.len() as int);
    lemma_suffix_chars();
    assert(s.subrange(0, slash).len() == 36);
    assert(suffix == suffix_text(k.is_committed));
    assert(name.subrange(0, at) =~= s.subrange(37, 37 + at));
    assert(name[at] == s[37 + at]);
    assert(suffix =~= s.subrange(38 + at, s.len() as int));
}

/// Every character of a key is ASCII.
pub proof fn lemma_key_is_ascii(s: Seq<char>)
    requires
        parse_key(s) is Some,
    ensures
        vstd::utf8::is_ascii_chars(s),
{
    s.index_of_last_ensures('/');
    let slash = s.index_of_last('/')->0;
    let name = s.subrange(slash + 1, s.len() as int);
    name.index_of_first_ensures('.');
    let dot = name.index_of_first('.')->0;
    let id = s.subrange(0, slash);
    let st = name.subrange(0, dot);
    let suffix = name.subrange(dot + 1, name.len() as int);
    lemma_suffix_chars();
    assert forall|i: int| 0 <= i < s.len() implies '\0' <= #[trigger] s[i] <= '\u{7f}' by {
        if i < slash {
            lemma_parse_id_chars(id, i);
            assert(id[i] == s[i]);
        } else if i == slash {
        } else if i - slash - 1 < dot {
            let j = i - slash - 1;
            assert(st[j] == s[i]);
            if st[0] == '+' {
                if j > 0 {
                    lemma_radix_digits(st.subrange(1, st.len() as int), 10, j - 1);
                }
            } else {
                lemma_radix_digits(st, 10, j);
            }
        } else if i - slash - 1 == dot {
            assert(name[dot] == s[i]);
        } else {
            let j = i - slash - 1 - dot - 1;
            assert(suffix[j] == s[i]);
            if suffix == suffix_text(true) {
                assert(0 <= j < 6);
            } else {
                assert(suffix == suffix_text(false));
                assert(0 <= j < 4);
            }
        }
    }
}

/// Reads a step from the characters `from..to` of an ASCII string.
pub(crate) fn parse_step_range(s: &str, from: usize, to: usize) -> (r: Option<u32>)
    requires
        s.is_ascii(),
        from <= to <= s@.len(),
    ensures
        r == parse_step(s@.subrange(from as int, to as int)),
{
    let ghost sub = s@.subrange(from as int, to as int);
    let mut start: usize = from;
    if from < to && s.get_ascii(from) == 43 {
        start = from + 1;
    }
    proof {
        if start == from {
            assert(from < to ==> sub[0] != '+');
        } else {
            assert(sub[0] == '+');
            assert(sub.subrange(1, sub.len() as int) =~= s@.subrange(start as int, to as int));
        }
        assert(Seq::<char>::empty() + s@.subrange(start as int, to as int) =~= s@.subrange(
            start as int,
            to as int,
        ));
    }
    if start == to {
        return None;
    }
    match read_digits(s, start, to, 10, 0, 0xffff_ffff, Ghost(Seq::empty())) {
        Some(v) => Some(v as u32),
        None => None,
    }
}

/// Reads the kind of record from the characters `from..to` of an ASCII string.
pub(crate) fn parse_suffix_range(s: &str, from: usize, to: usize) -> (r: Option<bool>)
    requires
        s.is_ascii(),
        from <= to <= s@.len(),
    ensures
        r == parse_suffix(s@.subrange(from as int, to as int)),
{
    let ghost sub = s@.subrange(from as int, to as int);
    proof {
        lemma_suffix_chars();
    }
    if to - from == 6 {
        let hit = s.get_ascii(from) == 99 && s.get_ascii(from + 1) == 111 && s.get_ascii(from + 2)
            == 109 && s.get_ascii(from + 3) == 109 && s.get_ascii(from + 4) == 105 && s.get_ascii(
            from + 5,
        ) == 116;
        proof {
            if hit {
                assert(sub =~= suffix_text(true));
            } else {
                assert(sub[0] != 'c' || sub[1] != 'o' || sub[2] != 'm' || sub[3] != 'm' || sub[4]
                    != 'i' || sub[5] != 't');
            }
        }
        if hit {
            Some(true)
        } else {
            None
        }
    } else if to - from == 4 {
        let hit = s.get_ascii(from) == 115 && s.get_ascii(from + 1) == 116 && s.get_ascii(from + 2)
            == 101 && s.get_ascii(from + 3) == 112;
        proof {
            if hit {
                assert(sub =~= suffix_text(false));
            } else {
                assert(sub[0] != 's' || sub[1] != 't' || sub[2] != 'e' || sub[3] != 'p');
            }
        }
        if hit {
            Some(false)
        } else {
            None
        }
    } else {
        None
    }
}

impl ParsedKey {
    /// The storage key of this record.
    pub fn to_string(&self) -> (r: String)
        ensures
            r@ == key_text(*self),
    {
        let mut out = self.procedure_id.to_string();
        out.push('/');
        let digits = radix_digits(self.step as u128, 10, STEP_WIDTH);
        proof {
            lemma_radix_text_len(self.step as nat, 10, 10);
        }
        push_chars(&mut out, &digits, 0, STEP_WIDTH);
        out.push('.');
        if self.is_committed {
            out.push('c');
            out.push('o');
            out.push('m');
            out.push('m');
            out.push('i');
            out.push('t');
        } else {
            out.push('s');
            out.push('t');
            out.push('e');
            out.push('p');
        }
        proof {
            assert(digits@.subrange(0, 10) =~= digits@);
            assert(out@ =~= key_text(*self));
        }
        out
    }

    /// Decodes a storage key. A text that is no key gives `None`: such keys
    /// are expected in a store and are no error.
    pub fn parse_str(input: &str) -> (r: Option<ParsedKey>)
        ensures
            r == parse_key(input@),
    {
        if !input.is_ascii() {
            proof {
                if parse_key(input@) is Some {
                    lemma_key_is_ascii(input@);
                }
            }
            return None;
        }
        let n = ascii_len(input);
        let mut i: usize = n;
        while i > 0 && input.get_ascii(i - 1) != 47
            invariant
                input.is_ascii(),
                n == input@.len(),
                i <= n,
                forall|j: int| i <= j < n ==> input@[j] != '/',
            decreases i,
        {
            i -= 1;
        }
        if i == 0 {
            proof {
                input@.index_of_last_ensures('/');
            }
            return None;
        }
        let slash: usize = i - 1;
        proof {
            lemma_last_at(input@, '/', slash as int);
        }
        let ghost name = input@.subrange(slash + 1, n as int);
        let mut dot: usize = slash + 1;
        while dot < n && input.get_ascii(dot) != 46
            invariant
                input.is_ascii(),
                n == input@.len(),
                slash < dot <= n,
                forall|j: int| slash < j < dot ==> input@[j] != '.',
            decreases n - dot,
        {
            dot += 1;
        }
        if dot == n {
            proof {
                name.index_of_first_ensures('.');
                if name.contains('.') {
                    let j = choose|j: int| 0 <= j < name.len() && name[j] == '.';
                    assert(input@[slash + 1 + j] == '.');
                }
            }
            return None;
        }
        proof {
            assert forall|j: int| 0 <= j < dot - slash - 1 implies name[j] != '.' by {
                assert(name[j] == input@[slash + 1 + j]);
            }
            lemma_first_at(name, '.', dot - slash - 1);
            assert(name.subrange(0, dot - slash - 1) =~= input@.subrange(slash + 1, dot as int));
            assert(name.subrange(dot - slash, name.len() as int) =~= input@.subrange(
                dot + 1,
                n as int,
            ));
        }
        let id = ProcedureId::parse_range(input, 0, slash);
        let step = parse_step_range(input, slash + 1, dot);
        let kind = parse_suffix_range(input, dot + 1, n);
        match (id, step, kind) {
            (Some(procedure_id), Some(step), Some(is_committed)) => Some(
                ParsedKey { procedure_id, step, is_committed },
            ),
            _ => None,
        }
    }
}

} // verus!
