//! Text-level building blocks for the GFF3 grammar: decimal numbers,
//! separator-based splitting and joining, and their algebra.

use vstd::prelude::*;

verus! {

/// True of the ten ASCII decimal digit characters.
pub open spec fn is_dec_digit(c: char) -> bool {
    '0' <= c && c <= '9'
}

/// Numeric value of a digit character, as an offset from `'0'`.
pub open spec fn digit_val(c: char) -> int {
    c as int - '0' as int
}

/// Every character of `s` is a decimal digit.
pub open spec fn all_dec_digits(s: Seq<char>) -> bool {
    forall|i: int| 0 <= i < s.len() ==> is_dec_digit(#[trigger] s[i])
}

/// Value of a digit string read in base ten, most significant digit first.
pub open spec fn dec_value(s: Seq<char>) -> int
    decreases s.len(),
{
    if s.len() == 0 {
        0
    } else {
        dec_value(s.drop_last()) * 10 + digit_val(s.last())
    }
}

/// The number an unsigned-integer column denotes: a non-empty run of
/// decimal digits whose value fits in `u64`; anything else is no number.
pub open spec fn spec_parse_u64(s: Seq<char>) -> Option<u64> {
    if s.len() > 0 && all_dec_digits(s) && dec_value(s) <= u64::MAX {
        Some(dec_value(s) as u64)
    } else {
        None
    }
}

pub proof fn lemma_dec_value_nonneg(s: Seq<char>)
    requires
        all_dec_digits(s),
    ensures
        dec_value(s) >= 0,
    decreases s.len(),
{
    if s.len() > 0 {
        assert(all_dec_digits(s.drop_last()));
        lemma_dec_value_nonneg(s.drop_last());
    }
}

/// A prefix of a digit string never denotes more than the whole string.
pub proof fn lemma_dec_value_prefix_le(s: Seq<char>, i: int)
    requires
        all_dec_digits(s),
        0 <= i <= s.len(),
    ensures
        dec_value(s.take(i)) <= dec_value(s),
    decreases s.len(),
{
    if i == s.len() {
        assert(s.take(i) =~= s);
    } else {
        let t = s.drop_last();
        assert(all_dec_digits(t));
        assert(t.take(i) =~= s.take(i));
        lemma_dec_value_prefix_le(t, i);
        lemma_dec_value_nonneg(t);
        assert(dec_value(t) <= dec_value(t) * 10);
        assert(dec_value(s) == dec_value(t) * 10 + digit_val(s.last()));
    }
}

pub proof fn lemma_dec_value_push(s: Seq<char>, c: char)
    ensures
        dec_value(s.push(c)) == dec_value(s) * 10 + digit_val(c),
{
    assert(s.push(c).drop_last() =~= s);
    assert(s.push(c).last() == c);
}

/// The digit character for a value between 0 and 9.
pub open spec fn digit_char(d: int) -> char {
    if d == 0 {
        '0'
    } else if d == 1 {
        '1'
    } else if d == 2 {
        '2'
    } else if d == 3 {
        '3'
    } else if d == 4 {
        '4'
    } else if d == 5 {
        '5'
    } else if d == 6 {
        '6'
    } else if d == 7 {
        '7'
    } else if d == 8 {
        '8'
    } else {
        '9'
    }
}

/// Canonical base-ten spelling of a number: no sign, no leading zero
/// except for the single digit of zero itself.
pub open spec fn dec_string(v: nat) -> Seq<char>
    decreases v,
{
    if v < 10 {
        seq![digit_char(v as int)]
    } else {
        dec_string(v / 10).push(digit_char((v % 10) as int))
    }
}

/// The canonical spelling is made of digits and reads back as the
/// number it spells.
pub proof fn lemma_dec_string_value(v: nat)
    ensures
        dec_string(v).len() >= 1,
        all_dec_digits(dec_string(v)),
        dec_value(dec_string(v)) == v,
    decreases v,
{
    if v < 10 {
        assert(is_dec_digit(digit_char(v as int)));
        assert(digit_val(digit_char(v as int)) == v);
        let s = dec_string(v);
        assert(s.drop_last() =~= Seq::<char>::empty());
        assert(dec_value(Seq::<char>::empty()) == 0);
        assert(dec_value(s) == dec_value(s.drop_last()) * 10 + digit_val(s.last()));
        assert(s.last() == digit_char(v as int));
    } else {
        lemma_dec_string_value(v / 10);
        lemma_dec_value_push(dec_string(v / 10), digit_char((v % 10) as int));
        vstd::arithmetic::div_mod::lemma_fundamental_div_mod(v as int, 10);
        assert(is_dec_digit(digit_char((v % 10) as int)));
        assert(digit_val(digit_char((v % 10) as int)) == v % 10);
        assert(dec_value(dec_string(v)) == (v / 10) * 10 + (v % 10));
    }
}

/// Parsing the canonical spelling of a `u64` gives the number back.
pub proof fn lemma_parse_dec_string(v: u64)
    ensures
        spec_parse_u64(dec_string(v as nat)) == Some(v),
{
    lemma_dec_string_value(v as nat);
}

/// Parse a whole string as a base-ten `u64`.
///
/// Returns the number iff the string is a non-empty run of decimal digits
/// whose value fits in `u64`; every other string (empty, a stray sign or
/// letter, an overflowing run of digits) yields `None`.
pub fn parse_u64(s: &str) -> (r: Option<u64>)
    ensures
        r == spec_parse_u64(s@),
{
    let n = s.unicode_len();
    if n == 0 {
        return None;
    }
    let mut acc: u64 = 0;
    let mut i: usize = 0;
    while i < n
        invariant
            0 <= i <= n,
            n == s@.len(),
            all_dec_digits(s@.take(i as int)),
            acc as int == dec_value(s@.take(i as int)),
        decreases n - i,
    {
        let c = s.get_char(i);
        if c < '0' || c > '9' {
            assert(!is_dec_digit(s@[i as int]));
            return None;
        }
        let d: u64 = (c as u32 - '0' as u32) as u64;
        proof {
            assert(s@.take(i as int).push(s@[i as int]) =~= s@.take(i + 1));
            lemma_dec_value_push(s@.take(i as int), s@[i as int]);
        }
        let next = match acc.checked_mul(10) {
            Some(p) => p.checked_add(d),
            None => None,
        };
        match next {
            Some(v) => {
                acc = v;
            },
            None => {
                proof {
                    assert(dec_value(s@.take(i + 1)) > u64::MAX);
                    if all_dec_digits(s@) {
                        lemma_dec_value_prefix_le(s@, i + 1);
                    }
                }
                return None;
            },
        }
        i = i + 1;
    }
    proof {
        assert(s@.take(n as int) =~= s@);
    }
    Some(acc)
}

/// Relies on String::push: appends exactly one character to the string.
#[verifier::external_body]
pub(crate) fn push_char(s: &mut String, c: char)
    ensures
        final(s)@ == old(s)@.push(c),
{
    s.push(c);
}

fn digit_to_char(d: u64) -> (c: char)
    requires
        d < 10,
    ensures
        c == digit_char(d as int),
{
    match d {
        0 => '0',
        1 => '1',
        2 => '2',
        3 => '3',
        4 => '4',
        5 => '5',
        6 => '6',
        7 => '7',
        8 => '8',
        _ => '9',
    }
}

/// Format a `u64` as its canonical base-ten spelling.
pub fn u64_to_string(v: u64) -> (r: String)
    ensures
        r@ == dec_string(v as nat),
    decreases v,
{
    if v < 10 {
        let mut r = String::new();
        push_char(&mut r, digit_to_char(v));
        proof {
            assert(Seq::<char>::empty().push(digit_char(v as int)) =~= dec_string(v as nat));
        }
        r
    } else {
        let mut r = u64_to_string(v / 10);
        push_char(&mut r, digit_to_char(v % 10));
        r
    }
}

/// Whole-string equality, decided character by character.
pub fn str_eq(a: &str, b: &str) -> (r: bool)
    ensures
        r == (a@ == b@),
{
    let na = a.unicode_len();
    let nb = b.unicode_len();
    if na != nb {
        return false;
    }
    let mut i: usize = 0;
    while i < na
        invariant
            0 <= i <= na,
            na == a@.len(),
            na == b@.len(),
            forall|j: int| 0 <= j < i ==> a@[j] == b@[j],
        decreases na - i,
    {
        if a.get_char(i) != b.get_char(i) {
            return false;
        }
        i = i + 1;
    }
    proof {
        assert(a@ =~= b@);
    }
    true
}

/// No character of `s` is `c`.
pub open spec fn free_of(s: Seq<char>, c: char) -> bool {
    forall|i: int| 0 <= i < s.len() ==> s[i] != c
}

/// Fields of `s` between occurrences of the separator, in order: the
/// empty string has exactly one field, itself empty.
pub open spec fn spec_split(s: Seq<char>, sep: char) -> Seq<Seq<char>>
    decreases s.len(),
{
    if s.len() == 0 {
        seq![Seq::<char>::empty()]
    } else if s[0] == sep {
        seq![Seq::<char>::empty()] + spec_split(s.skip(1), sep)
    } else {
        let rest = spec_split(s.skip(1), sep);
        seq![seq![s[0]] + rest[0]] + rest.skip(1)
    }
}

/// Fields joined back into one string with the separator between them.
pub open spec fn spec_join(parts: Seq<Seq<char>>, sep: char) -> Seq<char>
    decreases parts.len(),
{
    if parts.len() == 0 {
        Seq::<char>::empty()
    } else if parts.len() == 1 {
        parts[0]
    } else {
        parts[0] + seq![sep] + spec_join(parts.skip(1), sep)
    }
}

pub proof fn lemma_split_len(s: Seq<char>, sep: char)
    ensures
        spec_split(s, sep).len() >= 1,
    decreases s.len(),
{
    if s.len() != 0 {
        lemma_split_len(s.skip(1), sep);
    }
}

/// Appending one character extends the last field, or, when it is the
/// separator, opens a new empty field.
pub proof fn lemma_split_push(s: Seq<char>, c: char, sep: char)
    ensures
        c == sep ==> spec_split(s.push(c), sep) == spec_split(s, sep).push(Seq::<char>::empty()),
        c != sep ==> spec_split(s.push(c), sep) == spec_split(s, sep).update(
            spec_split(s, sep).len() - 1,
            spec_split(s, sep).last().push(c),
        ),
    decreases s.len(),
{
    lemma_split_len(s, sep);
    if s.len() == 0 {
        assert(s.push(c).skip(1) =~= Seq::<char>::empty());
        assert(spec_split(Seq::<char>::empty(), sep) == seq![Seq::<char>::empty()]);
        if c == sep {
            assert(spec_split(s.push(c), sep) =~~= spec_split(s, sep).push(Seq::<char>::empty()));
        } else {
            assert(seq![c] + spec_split(Seq::<char>::empty(), sep)[0] =~= spec_split(
                s,
                sep,
            ).last().push(c));
            assert(spec_split(s.push(c), sep) =~~= spec_split(s, sep).update(
                spec_split(s, sep).len() - 1,
                spec_split(s, sep).last().push(c),
            ));
        }
    } else {
        let s1 = s.skip(1);
        lemma_split_push(s1, c, sep);
        lemma_split_len(s1, sep);
        assert(s.push(c).skip(1) =~= s1.push(c));
        assert(s.push(c)[0] == s[0]);
        if c == sep {
            if s[0] == sep {
                assert(spec_split(s.push(c), sep) == seq![Seq::<char>::empty()] + spec_split(
                    s1,
                    sep,
                ).push(Seq::<char>::empty()));
            } else {
                let r = spec_split(s1, sep);
                assert(r.push(Seq::<char>::empty())[0] == r[0]);
                assert(r.push(Seq::<char>::empty()).skip(1) =~~= r.skip(1).push(
                    Seq::<char>::empty(),
                ));
            }
            assert(spec_split(s.push(c), sep) =~~= spec_split(s, sep).push(Seq::<char>::empty()));
        } else {
            assert(spec_split(s.push(c), sep) =~~= spec_split(s, sep).update(
                spec_split(s, sep).len() - 1,
                spec_split(s, sep).last().push(c),
            ));
        }
    }
}

/// Appending one more field extends the joined string by a separator
/// and that field.
pub proof fn lemma_join_push(parts: Seq<Seq<char>>, p: Seq<char>, sep: char)
    ensures
        parts.len() == 0 ==> spec_join(parts.push(p), sep) == p,
        parts.len() > 0 ==> spec_join(parts.push(p), sep) == spec_join(parts, sep) + seq![sep] + p,
    decreases parts.len(),
{
    if parts.len() == 0 {
        assert(parts.push(p)[0] == p);
    } else if parts.len() == 1 {
        assert(parts.push(p).skip(1) =~~= seq![p]);
        assert(spec_join(seq![p], sep) == p);
        assert(parts.push(p)[0] == parts[0]);
        assert(spec_join(parts.push(p), sep) == parts[0] + seq![sep] + p);
        assert(spec_join(parts, sep) == parts[0]);
    } else {
        lemma_join_push(parts.skip(1), p, sep);
        assert(parts.push(p).skip(1) =~~= parts.skip(1).push(p));
        assert(spec_join(parts, sep) + seq![sep] + p =~= parts[0] + seq![sep] + (spec_join(
            parts.skip(1),
            sep,
        ) + seq![sep] + p));
    }
}

/// A separator-free string is one single field.
pub proof fn lemma_split_no_sep(s: Seq<char>, sep: char)
    requires
        free_of(s, sep),
    ensures
        spec_split(s, sep) == seq![s],
    decreases s.len(),
{
    if s.len() > 0 {
        assert(free_of(s.skip(1), sep));
        lemma_split_no_sep(s.skip(1), sep);
        assert(seq![s[0]] + s.skip(1) =~= s);
        assert(spec_split(s, sep) =~~= seq![s]);
    } else {
        assert(s =~= Seq::<char>::empty());
        assert(spec_split(s, sep) =~~= seq![s]);
    }
}

/// A separator-free prefix before a separator is the first field.
pub proof fn lemma_split_sep_prefix(p: Seq<char>, t: Seq<char>, sep: char)
    requires
        free_of(p, sep),
    ensures
        spec_split(p + seq![sep] + t, sep) == seq![p] + spec_split(t, sep),
    decreases p.len(),
{
    let s = p + seq![sep] + t;
    lemma_split_len(t, sep);
    if p.len() == 0 {
        assert(s[0] == sep);
        assert(s.skip(1) =~= t);
        assert(spec_split(s, sep) =~~= seq![p] + spec_split(t, sep));
    } else {
        assert(free_of(p.skip(1), sep));
        lemma_split_sep_prefix(p.skip(1), t, sep);
        assert(s[0] == p[0]);
        assert(s[0] != sep);
        assert(s.skip(1) =~= p.skip(1) + seq![sep] + t);
        let rest = spec_split(s.skip(1), sep);
        assert(rest == seq![p.skip(1)] + spec_split(t, sep));
        assert(rest[0] == p.skip(1));
        assert(seq![s[0]] + rest[0] =~= p);
        assert(rest.skip(1) =~~= spec_split(t, sep));
        assert(spec_split(s, sep) =~~= seq![p] + spec_split(t, sep));
    }
}

/// Splitting the joined fields on the separator restores them exactly,
/// provided no field contains the separator itself.
pub proof fn lemma_split_of_join(parts: Seq<Seq<char>>, sep: char)
    requires
        parts.len() >= 1,
        forall|i: int| 0 <= i < parts.len() ==> free_of(#[trigger] parts[i], sep),
    ensures
        spec_split(spec_join(parts, sep), sep) == parts,
    decreases parts.len(),
{
    if parts.len() == 1 {
        lemma_split_no_sep(parts[0], sep);
        assert(spec_split(spec_join(parts, sep), sep) =~~= parts);
    } else {
        assert(forall|i: int|
            0 <= i < parts.skip(1).len() ==> free_of(#[trigger] parts.skip(1)[i], sep));
        lemma_split_of_join(parts.skip(1), sep);
        lemma_split_sep_prefix(parts[0], spec_join(parts.skip(1), sep), sep);
        assert(spec_split(spec_join(parts, sep), sep) =~~= parts);
    }
}

/// Split a string into its fields around every occurrence of `sep`.
pub fn split_str(s: &str, sep: char) -> (r: Vec<String>)
    ensures
        r.deep_view() == spec_split(s@, sep),
{
    let n = s.unicode_len();
    let mut done: Vec<String> = Vec::new();
    let mut cur: String = String::new();
    let mut i: usize = 0;
    while i < n
        invariant
            i <= n,
            n == s@.len(),
            done.deep_view().push(cur@) =~~= spec_split(s@.take(i as int), sep),
        decreases n - i,
    {
        let c = s.get_char(i);
        proof {
            assert(s@.take(i as int).push(s@[i as int]) =~= s@.take(i + 1));
            lemma_split_push(s@.take(i as int), s@[i as int], sep);
            lemma_split_len(s@.take(i as int), sep);
        }
        if c == sep {
            done.push(cur);
            cur = String::new();
            proof {
                assert(done.deep_view().push(cur@) =~~= spec_split(s@.take(i + 1), sep));
            }
        } else {
            push_char(&mut cur, c);
            proof {
                assert(done.deep_view().push(cur@) =~~= spec_split(s@.take(i + 1), sep));
            }
        }
        i = i + 1;
    }
    proof {
        assert(s@.take(n as int) =~= s@);
    }
    done.push(cur);
    proof {
        assert(done.deep_view() =~~= spec_split(s@, sep));
    }
    done
}

/// Join fields into one string with the separator between them.
pub fn join_strs(parts: &Vec<String>, sep: char) -> (r: String)
    ensures
        r@ == spec_join(parts.deep_view(), sep),
{
    let mut r = String::new();
    let mut i: usize = 0;
    while i < parts.len()
        invariant
            i <= parts@.len(),
            parts.deep_view().len() == parts@.len(),
            r@ == spec_join(parts.deep_view().take(i as int), sep),
        decreases parts@.len() - i,
    {
        let ghost prefix = parts.deep_view().take(i as int);
        if i > 0 {
            push_char(&mut r, sep);
        }
        r.append(parts[i].as_str());
        proof {
            assert(prefix.push(parts.deep_view()[i as int]) =~~= parts.deep_view().take(i + 1));
            lemma_join_push(prefix, parts.deep_view()[i as int], sep);
            if i > 0 {
                assert(r@ =~= spec_join(parts.deep_view().take(i + 1), sep));
            } else {
                assert(r@ =~= spec_join(parts.deep_view().take(i + 1), sep));
            }
        }
        i = i + 1;
    }
    proof {
        assert(parts.deep_view().take(parts@.len() as int) =~~= parts.deep_view());
    }
    r
}

} // verus!
