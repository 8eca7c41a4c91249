use vstd::prelude::*;

verus! {

/// The characters of `s`, in a vector that can be indexed in constant time.
pub fn chars_of(s: &str) -> (r: Vec<char>)
    ensures
        r@ == s@,
{
    let mut out: Vec<char> = Vec::new();
    for c in it: s.chars()
        invariant
            out@ == it.seq().subrange(0, it.index() as int),
    {
        out.push(c);
    }
    out
}

pub open spec fn is_digit(c: char) -> bool {
    '0' <= c && c <= '9'
}

pub open spec fn digit_value(c: char) -> int {
    c as int - '0' as int
}

/// The number that a run of decimal digits spells, most significant first.
pub open spec fn decimal_value(s: Seq<char>) -> int
    decreases s.len(),
{
    if s.len() == 0 {
        0
    } else {
        10 * decimal_value(s.drop_last()) + digit_value(s.last())
    }
}

/// The digits of a number as Rust reads an unsigned integer: after an optional `+`.
pub open spec fn unsigned_digits(s: Seq<char>) -> Seq<char> {
    if s.len() > 0 && s[0] == '+' {
        s.drop_first()
    } else {
        s
    }
}

/// The `u32` that `s` spells in decimal: an optional `+`, then one or more
/// digits whose value fits in 32 bits.
pub open spec fn parsed_u32(s: Seq<char>) -> Option<u32> {
    let d = unsigned_digits(s);
    if d.len() > 0 && (forall|i: int| 0 <= i < d.len() ==> is_digit(#[trigger] d[i]))
        && decimal_value(d) <= u32::MAX {
        Some(decimal_value(d) as u32)
    } else {
        None
    }
}

/// Reads the characters `s[from..to]` as a decimal `u32`.
pub fn parse_u32_in(s: &Vec<char>, from: usize, to: usize) -> (r: Option<u32>)
    requires
        from <= to <= s@.len(),
    ensures
        r == parsed_u32(s@.subrange(from as int, to as int)),
{
    let ghost whole = s@.subrange(from as int, to as int);
    let mut start = from;
    if start < to && s[start] == '+' {
        start = start + 1;
    }
    let ghost digits = s@.subrange(start as int, to as int);
    assert(digits =~= unsigned_digits(whole));
    if start == to {
        return None;
    }
    let mut acc: u64 = 0;
    let mut over = false;
    let mut i = start;
    while i < to
        invariant
            from <= start <= i <= to <= s@.len(),
            digits == s@.subrange(start as int, to as int),
            digits == unsigned_digits(whole),
            whole == s@.subrange(from as int, to as int),
            forall|k: int| start <= k < i ==> is_digit(#[trigger] s@[k]),
            !over ==> acc <= u32::MAX && acc == decimal_value(s@.subrange(start as int, i as int)),
            over ==> decimal_value(s@.subrange(start as int, i as int)) > u32::MAX,
        decreases to - i,
    {
        let c = s[i];
        if !('0' <= c && c <= '9') {
            assert(digits[i - start] == c);
            assert(!is_digit(digits[i - start]));
            return None;
        }
        let ghost before = s@.subrange(start as int, i as int);
        assert(s@.subrange(start as int, i + 1).drop_last() =~= before);
        if !over {
            acc = acc * 10 + (c as u64 - '0' as u64);
            if acc > u32::MAX as u64 {
                over = true;
            }
        }
        i = i + 1;
    }
    assert(s@.subrange(start as int, i as int) =~= digits);
    assert forall|k: int| 0 <= k < digits.len() implies is_digit(#[trigger] digits[k]) by {
        assert(digits[k] == s@[start + k]);
    }
    if over {
        None
    } else {
        Some(acc as u32)
    }
}

/// Reads `s` as a decimal `u32`, the way a quote id is written in a request.
pub fn parse_u32(s: &str) -> (r: Option<u32>)
    ensures
        r == parsed_u32(s@),
{
    let cs = chars_of(s);
    assert(cs@.subrange(0, cs@.len() as int) =~= s@);
    parse_u32_in(&cs, 0, cs.len())
}

/// The extension that every stored quote file carries.
pub open spec fn quote_file_suffix() -> Seq<char> {
    seq!['.', 't', 'x', 't']
}

/// The quote id that a stored file name stands for: the name without its
/// `.txt` suffix, read as a decimal `u32`.
pub open spec fn file_name_id(name: Seq<char>) -> Option<u32> {
    if name.len() >= 4 && name.subrange(name.len() - 4, name.len() as int) == quote_file_suffix() {
        parsed_u32(name.subrange(0, name.len() - 4))
    } else {
        None
    }
}

/// Reads the quote id out of a stored file name such as `42.txt`.
pub fn id_from_file_name(name: &str) -> (r: Option<u32>)
    ensures
        r == file_name_id(name@),
{
    let cs = chars_of(name);
    let n = cs.len();
    if n < 4 {
        return None;
    }
    if !(cs[n - 4] == '.' && cs[n - 3] == 't' && cs[n - 2] == 'x' && cs[n - 1] == 't') {
        assert(cs@.subrange(n - 4, n as int)[0] == cs@[n - 4]);
        assert(cs@.subrange(n - 4, n as int)[1] == cs@[n - 3]);
        assert(cs@.subrange(n - 4, n as int)[2] == cs@[n - 2]);
        assert(cs@.subrange(n - 4, n as int)[3] == cs@[n - 1]);
        return None;
    }
    assert(cs@.subrange(n - 4, n as int) =~= quote_file_suffix());
    parse_u32_in(&cs, 0, n - 4)
}

} // verus!
