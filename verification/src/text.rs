//! Character-level text utilities shared by the parser: whitespace trimming,
//! decoding of the five predefined XML entity references, and decimal
//! rendering of tool identifiers.
//!
//! Parameter values are trimmed of leading and trailing whitespace when their
//! closing tag is seen; interior whitespace is preserved exactly.  Whitespace
//! here means the ASCII blanks that occur around embedded elements: space,
//! tab, line feed and carriage return.

use vstd::prelude::*;
use vstd::string::StringExecFns;

verus! {

/// A `char` can always be appended to a `String`; the result's characters are
/// the old ones followed by the appended one.  Relies on `String::push`.
pub assume_specification[ String::push ](s: &mut String, ch: char)
    ensures
        final(s)@ == old(s)@.push(ch),
;

/// Whitespace stripped from the edges of parameter values: the ASCII blanks.
pub open spec fn is_space(c: char) -> bool {
    c == ' ' || c == '\t' || c == '\n' || c == '\r'
}

/// Executable mirror of [`is_space`].
pub fn space_char(c: char) -> (r: bool)
    ensures
        r == is_space(c),
{
    c == ' ' || c == '\t' || c == '\n' || c == '\r'
}

/// `s` without its leading whitespace.
pub open spec fn trim_front(s: Seq<char>) -> Seq<char>
    decreases s.len(),
{
    if s.len() > 0 && is_space(s[0]) {
        trim_front(s.drop_first())
    } else {
        s
    }
}

/// `s` without its trailing whitespace.
pub open spec fn trim_back(s: Seq<char>) -> Seq<char>
    decreases s.len(),
{
    if s.len() > 0 && is_space(s.last()) {
        trim_back(s.drop_last())
    } else {
        s
    }
}

/// `s` without leading and trailing whitespace.
pub open spec fn trim(s: Seq<char>) -> Seq<char> {
    trim_back(trim_front(s))
}

/// A sequence with no whitespace at either edge trims to itself.
pub proof fn lemma_trim_of_trimmed(s: Seq<char>)
    requires
        s.len() > 0 ==> !is_space(s[0]) && !is_space(s.last()),
    ensures
        trim(s) == s,
{
}

/// Copies the characters of a string slice into a vector.
pub fn chars_vec(s: &str) -> (v: Vec<char>)
    ensures
        v@ == s@,
{
    let mut v: Vec<char> = Vec::new();
    for c in it: s.chars()
        invariant
            it.seq() == s@,
            v@ == it.seq().take(it.index() as int),
    {
        v.push(c);
    }
    proof {
        assert(v@ =~= s@);
    }
    v
}

/// Builds a string from the characters `v[from..to]`.
pub fn string_of_range(v: &Vec<char>, from: usize, to: usize) -> (s: String)
    requires
        from <= to <= v@.len(),
    ensures
        s@ == v@.subrange(from as int, to as int),
{
    let mut s = String::new();
    let mut i: usize = from;
    while i < to
        invariant
            from <= i <= to <= v@.len(),
            s@ == v@.subrange(from as int, i as int),
        decreases to - i,
    {
        s.push(v[i]);
        i = i + 1;
        proof {
            assert(s@ =~= v@.subrange(from as int, i as int));
        }
    }
    s
}

/// Removes leading and trailing whitespace from a string.
pub fn trim_string(s: &str) -> (r: String)
    ensures
        r@ == trim(s@),
{
    let v = chars_vec(s);
    let n = v.len();
    let mut from: usize = 0;
    proof {
        assert(v@.skip(0) =~= v@);
    }
    while from < n && space_char(v[from])
        invariant
            0 <= from <= n == v@.len(),
            trim_front(s@) == trim_front(v@.skip(from as int)),
        decreases n - from,
    {
        proof {
            assert(v@.skip(from as int).drop_first() =~= v@.skip(from as int + 1));
        }
        from = from + 1;
    }
    proof {
        if from < n {
            assert(trim_front(v@.skip(from as int)) == v@.skip(from as int));
        } else {
            assert(v@.skip(from as int) =~= Seq::<char>::empty());
        }
        assert(v@.skip(from as int) =~= v@.subrange(from as int, n as int));
    }
    let mut to: usize = n;
    while to > from && space_char(v[to - 1])
        invariant
            from <= to <= n == v@.len(),
            trim_front(s@) == v@.skip(from as int),
            trim_back(v@.skip(from as int)) == trim_back(v@.subrange(from as int, to as int)),
        decreases to,
    {
        proof {
            assert(v@.subrange(from as int, to as int).drop_last() =~= v@.subrange(
                from as int,
                to as int - 1,
            ));
        }
        to = to - 1;
    }
    proof {
        if to > from {
            assert(trim_back(v@.subrange(from as int, to as int)) == v@.subrange(
                from as int,
                to as int,
            ));
        } else {
            assert(v@.subrange(from as int, to as int) =~= Seq::<char>::empty());
        }
    }
    string_of_range(&v, from, to)
}

/// `s` starts with the entity reference for `&`.
pub open spec fn is_amp_ref(s: Seq<char>) -> bool {
    s.len() >= 5 && s[0] == '&' && s[1] == 'a' && s[2] == 'm' && s[3] == 'p' && s[4] == ';'
}

/// `s` starts with the entity reference for `<`.
pub open spec fn is_lt_ref(s: Seq<char>) -> bool {
    s.len() >= 4 && s[0] == '&' && s[1] == 'l' && s[2] == 't' && s[3] == ';'
}

/// `s` starts with the entity reference for `>`.
pub open spec fn is_gt_ref(s: Seq<char>) -> bool {
    s.len() >= 4 && s[0] == '&' && s[1] == 'g' && s[2] == 't' && s[3] == ';'
}

/// `s` starts with the entity reference for `"`.
pub open spec fn is_quot_ref(s: Seq<char>) -> bool {
    s.len() >= 6 && s[0] == '&' && s[1] == 'q' && s[2] == 'u' && s[3] == 'o' && s[4] == 't'
        && s[5] == ';'
}

/// `s` starts with the entity reference for `'`.
pub open spec fn is_apos_ref(s: Seq<char>) -> bool {
    s.len() >= 6 && s[0] == '&' && s[1] == 'a' && s[2] == 'p' && s[3] == 'o' && s[4] == 's'
        && s[5] == ';'
}

/// `s` with the five predefined XML entity references decoded; every other
/// character, including unrecognized `&...` runs, passes through verbatim.
pub open spec fn decode_entities(s: Seq<char>) -> Seq<char>
    decreases s.len(),
{
    if s.len() == 0 {
        Seq::empty()
    } else if is_amp_ref(s) {
        seq!['&'] + decode_entities(s.skip(5))
    } else if is_lt_ref(s) {
        seq!['<'] + decode_entities(s.skip(4))
    } else if is_gt_ref(s) {
        seq!['>'] + decode_entities(s.skip(4))
    } else if is_quot_ref(s) {
        seq!['"'] + decode_entities(s.skip(6))
    } else if is_apos_ref(s) {
        seq!['\''] + decode_entities(s.skip(6))
    } else {
        seq![s[0]] + decode_entities(s.drop_first())
    }
}

/// A sequence without `&` decodes to itself.
pub proof fn lemma_decode_entities_of_plain(s: Seq<char>)
    requires
        forall|i: int| 0 <= i < s.len() ==> s[i] != '&',
    ensures
        decode_entities(s) == s,
    decreases s.len(),
{
    if s.len() > 0 {
        lemma_decode_entities_of_plain(s.drop_first());
        assert(seq![s[0]] + s.drop_first() =~= s);
    }
}

/// Decodes the five predefined XML entity references in a string.
pub fn decode_entities_string(s: &str) -> (r: String)
    ensures
        r@ == decode_entities(s@),
{
    let v = chars_vec(s);
    let n = v.len();
    let mut out = String::new();
    let mut i: usize = 0;
    proof {
        assert(v@.skip(0) =~= v@);
    }
    while i < n
        invariant
            0 <= i <= n == v@.len(),
            decode_entities(v@) == out@ + decode_entities(v@.skip(i as int)),
        decreases n - i,
    {
        let c = v[i];
        let ghost rest = v@.skip(i as int);
        let step: usize;
        if c == '&' && n - i >= 5 && v[i + 1] == 'a' && v[i + 2] == 'm' && v[i + 3] == 'p' && v[i
            + 4] == ';' {
            out.push('&');
            step = 5;
            proof {
                assert(is_amp_ref(rest));
            }
        } else if c == '&' && n - i >= 4 && v[i + 1] == 'l' && v[i + 2] == 't' && v[i + 3] == ';' {
            out.push('<');
            step = 4;
            proof {
                assert(is_lt_ref(rest));
            }
        } else if c == '&' && n - i >= 4 && v[i + 1] == 'g' && v[i + 2] == 't' && v[i + 3] == ';' {
            out.push('>');
            step = 4;
            proof {
                assert(is_gt_ref(rest));
            }
        } else if c == '&' && n - i >= 6 && v[i + 1] == 'q' && v[i + 2] == 'u' && v[i + 3] == 'o'
            && v[i + 4] == 't' && v[i + 5] == ';' {
            out.push('"');
            step = 6;
            proof {
                assert(is_quot_ref(rest));
            }
        } else if c == '&' && n - i >= 6 && v[i + 1] == 'a' && v[i + 2] == 'p' && v[i + 3] == 'o'
            && v[i + 4] == 's' && v[i + 5] == ';' {
            out.push('\'');
            step = 6;
            proof {
                assert(is_apos_ref(rest));
            }
        } else {
            out.push(c);
            step = 1;
            proof {
                assert(rest[0] == c);
                assert(rest.drop_first() =~= v@.skip(i as int + 1));
            }
        }
        proof {
            assert(rest.skip(step as int) =~= v@.skip(i as int + step as int));
            assert(out@ + decode_entities(v@.skip(i as int + step as int)) =~= decode_entities(
                v@,
            ));
        }
        i = i + step;
    }
    proof {
        assert(v@.skip(n as int) =~= Seq::<char>::empty());
        assert(out@ =~= decode_entities(v@));
    }
    out
}

/// The decimal digit character for `d`, which must lie below ten.
pub open spec fn digit_char(d: int) -> char {
    ((0x30 + d) as u8) as char
}

/// The decimal rendering of `n`, most significant digit first.
pub open spec fn dec_digits(n: nat) -> Seq<char>
    decreases n,
{
    if n < 10 {
        seq![digit_char(n as int)]
    } else {
        dec_digits(n / 10).push(digit_char((n % 10) as int))
    }
}

/// The correlation identifier carried by the events of one tool span.
pub open spec fn tool_id_chars(n: nat) -> Seq<char> {
    "tool_"@ + dec_digits(n)
}

/// Appends the decimal rendering of `n` to `s`.
pub fn push_decimal(s: &mut String, n: u64)
    ensures
        final(s)@ == old(s)@ + dec_digits(n as nat),
    decreases n,
{
    if n >= 10 {
        push_decimal(s, n / 10);
    }
    let d = (n % 10) as u8;
    s.push((0x30u8 + d) as char);
    proof {
        if n < 10 {
            assert(old(s)@.push(digit_char(n as int)) =~= old(s)@ + dec_digits(n as nat));
        } else {
            assert((old(s)@ + dec_digits((n / 10) as nat)).push(
                digit_char((n % 10) as int),
            ) =~= old(s)@ + dec_digits(n as nat));
        }
    }
}

/// Renders the identifier minted for the `n`-th tool start.
pub fn tool_id_string(n: u64) -> (r: String)
    ensures
        r@ == tool_id_chars(n as nat),
{
    let mut s = String::from_str("tool_");
    push_decimal(&mut s, n);
    s
}

} // verus!
