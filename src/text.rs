//! The text form of a flags value: the names of its flags joined by `" | "`,
//! with the bits that no name covers written last as `0x` and lowercase hex.
use vstd::prelude::*;

use crate::flags::{Flag, Flags};

verus! {

// ---------------------------------------------------------------- characters

/// The characters with the Unicode `White_Space` property, the ones that
/// `char::is_whitespace` and `str::trim` go by.
pub open spec fn white_space(c: char) -> bool {
    let u = c as u32;
    (0x09 <= u && u <= 0x0d) || u == 0x20 || u == 0x85 || u == 0xa0 || u == 0x1680 || (0x2000 <= u
        && u <= 0x200a) || u == 0x2028 || u == 0x2029 || u == 0x202f || u == 0x205f || u == 0x3000
}

fn is_white_space(c: char) -> (r: bool)
    ensures
        r == white_space(c),
{
    let u = c as u32;
    (0x09 <= u && u <= 0x0d) || u == 0x20 || u == 0x85 || u == 0xa0 || u == 0x1680 || (0x2000 <= u
        && u <= 0x200a) || u == 0x2028 || u == 0x2029 || u == 0x202f || u == 0x205f || u == 0x3000
}

/// Relies on `str::chars`: the characters of `s`, in order.
#[verifier::external_body]
pub(crate) fn chars_of(s: &str) -> (r: Vec<char>)
    ensures
        r@ == s@,
{
    s.chars().collect()
}

/// Relies on `String: FromIterator<&char>`: a string of these characters.
#[verifier::external_body]
pub(crate) fn string_of(v: &Vec<char>) -> (r: String)
    ensures
        r@ == v@,
{
    v.iter().collect()
}

pub open spec fn hex_digit(d: nat) -> char {
    if d < 10 {
        ('0' as u8 + d) as char
    } else {
        ('a' as u8 + (d - 10)) as char
    }
}

/// `n` in lowercase hex, without leading zeros.
pub open spec fn hex_text(n: nat) -> Seq<char>
    decreases n,
{
    if n < 16 {
        seq![hex_digit(n)]
    } else {
        hex_text(n / 16).push(hex_digit(n % 16))
    }
}

fn hex_digit_exec(d: u32) -> (r: char)
    requires
        d < 16,
    ensures
        r == hex_digit(d as nat),
{
    if d < 10 {
        ('0' as u8 + d as u8) as char
    } else {
        ('a' as u8 + (d as u8 - 10)) as char
    }
}

fn hex_chars(n: u32) -> (r: Vec<char>)
    ensures
        r@ == hex_text(n as nat),
    decreases n,
{
    if n < 16 {
        vec![hex_digit_exec(n)]
    } else {
        let mut v = hex_chars(n / 16);
        v.push(hex_digit_exec(n % 16));
        v
    }
}


// ---------------------------------------------------------------- rendering

/// The names that a value is rendered with, scanning `t` from index `i`, with
/// `rem` the bits not covered yet, and the bits still uncovered at the end.
/// A flag is taken when it is named, all of its bits are in `source`, and
/// some of them are still uncovered; the scan stops once nothing is left.
pub open spec fn scan_names(t: Seq<Flag>, i: int, source: u32, rem: u32) -> (Seq<Seq<char>>, u32)
    decreases t.len() - i,
{
    if i >= t.len() || rem == 0 {
        (seq![], rem)
    } else if takes(t[i], source, rem) {
        let r = scan_names(t, i + 1, source, rem & !t[i].bits);
        (seq![t[i].name@].add(r.0), r.1)
    } else {
        scan_names(t, i + 1, source, rem)
    }
}

pub open spec fn takes(f: Flag, source: u32, rem: u32) -> bool {
    f.name@.len() > 0 && source & f.bits == f.bits && rem & f.bits != 0
}

/// The segments of the text form of `bits`: the names that cover it, then
/// the hex of whatever they leave.
pub open spec fn segments_of(t: Seq<Flag>, bits: u32) -> Seq<Seq<char>> {
    let (names, rest) = scan_names(t, 0, bits, bits);
    if rest == 0 {
        names
    } else {
        names.push(seq!['0', 'x'] + hex_text(rest as nat))
    }
}

pub open spec fn separator() -> Seq<char> {
    seq![' ', '|', ' ']
}

/// Segments joined by `" | "`.
pub open spec fn join(segs: Seq<Seq<char>>) -> Seq<char>
    decreases segs.len(),
{
    if segs.len() == 0 {
        seq![]
    } else if segs.len() == 1 {
        segs[0]
    } else {
        join(segs.drop_last()) + separator() + segs.last()
    }
}

/// The text form of `bits` under the flags of `t`.
pub open spec fn text_of(t: Seq<Flag>, bits: u32) -> Seq<char> {
    join(segments_of(t, bits))
}

proof fn lemma_join_push(segs: Seq<Seq<char>>, x: Seq<char>)
    ensures
        join(segs.push(x)) == if segs.len() == 0 {
            x
        } else {
            join(segs) + separator() + x
        },
{
    assert(segs.push(x).drop_last() =~= segs);
}

proof fn lemma_scan_step(t: Seq<Flag>, i: int, source: u32, rem: u32, acc: Seq<Seq<char>>)
    requires
        0 <= i < t.len(),
        rem != 0,
    ensures
        takes(t[i], source, rem) ==> acc + scan_names(t, i, source, rem).0
            == acc.push(t[i].name@) + scan_names(t, i + 1, source, rem & !t[i].bits).0,
        takes(t[i], source, rem) ==> scan_names(t, i, source, rem).1
            == scan_names(t, i + 1, source, rem & !t[i].bits).1,
        !takes(t[i], source, rem) ==> scan_names(t, i, source, rem)
            == scan_names(t, i + 1, source, rem),
{
    if takes(t[i], source, rem) {
        let r = scan_names(t, i + 1, source, rem & !t[i].bits);
        assert(acc + (seq![t[i].name@] + r.0) =~= acc.push(t[i].name@) + r.0);
    }
}

fn push_all(out: &mut Vec<char>, s: &Vec<char>)
    ensures
        final(out)@ == old(out)@ + s@,
{
    let mut i: usize = 0;
    while i < s.len()
        invariant
            i <= s@.len(),
            out@ == old(out)@ + s@.subrange(0, i as int),
        decreases s@.len() - i,
    {
        out.push(s[i]);
        i = i + 1;
        assert(s@.subrange(0, i as int) =~= s@.subrange(0, i - 1) .push(s@[i - 1]));
    }
    assert(s@.subrange(0, s@.len() as int) =~= s@);
}

fn push_separator(out: &mut Vec<char>)
    ensures
        final(out)@ == old(out)@ + separator(),
{
    out.push(' ');
    out.push('|');
    out.push(' ');
    assert(final(out)@ =~= old(out)@ + separator());
}

/// Renders `flags` as the names of the flags of `table` that it holds,
/// joined by `" | "`, followed by the hex of any bits that no name covers.
pub fn to_text(flags: &Flags, table: &Vec<Flag>) -> (r: String)
    ensures
        r@ == text_of(table@, flags.spec_bits()),
{
    let source = flags.bits();
    let mut rem = source;
    let mut out: Vec<char> = Vec::new();
    let ghost mut names: Seq<Seq<char>> = seq![];
    let mut first = true;
    let mut i: usize = 0;
    while i < table.len() && rem != 0
        invariant
            first == (names.len() == 0),
            i <= table@.len(),
            names + scan_names(table@, i as int, source, rem).0 == scan_names(table@, 0, source, source).0,
            scan_names(table@, i as int, source, rem).1 == scan_names(table@, 0, source, source).1,
            out@ == join(names),
        decreases table@.len() - i,
    {
        let f = &table[i];
        proof {
            lemma_scan_step(table@, i as int, source, rem, names);
        }
        let name = chars_of(f.name.as_str());
        if name.len() > 0 && source & f.bits == f.bits && rem & f.bits != 0 {
            if !first {
                push_separator(&mut out);
            }
            push_all(&mut out, &name);
            proof {
                lemma_join_push(names, f.name@);
                names = names.push(f.name@);
            }
            first = false;
            rem = rem & !f.bits;
        }
        i = i + 1;
    }
    assert(scan_names(table@, i as int, source, rem).0 =~= seq![]);
    assert(names =~= scan_names(table@, 0, source, source).0);
    if rem != 0 {
        let hex = hex_chars(rem);
        if !first {
            push_separator(&mut out);
        }
        out.push('0');
        out.push('x');
        push_all(&mut out, &hex);
        proof {
            lemma_join_push(names, seq!['0', 'x'] + hex_text(rem as nat));
            assert(out@ =~= join(names.push(seq!['0', 'x'] + hex_text(rem as nat))));
        }
    }
    string_of(&out)
}

// ---------------------------------------------------------------- parsing

/// Why a text form was refused.
#[derive(Debug, PartialEq, Eq)]
pub enum ParseError {
    /// A segment between two `|` holds nothing but white space.
    EmptyFlag,
    /// A segment names no flag of the type; it holds the segment.
    InvalidNamedFlag(String),
    /// A segment starts with `0x` but the rest is not a hex number that fits
    /// the bits; it holds what follows `0x`.
    InvalidHexFlag(String),
}

/// A parse failure, with its text as characters.
pub enum ParseFailure {
    EmptyFlag,
    InvalidNamedFlag(Seq<char>),
    InvalidHexFlag(Seq<char>),
}

impl View for ParseError {
    type V = ParseFailure;

    open spec fn view(&self) -> ParseFailure {
        match self {
            ParseError::EmptyFlag => ParseFailure::EmptyFlag,
            ParseError::InvalidNamedFlag(s) => ParseFailure::InvalidNamedFlag(s@),
            ParseError::InvalidHexFlag(s) => ParseFailure::InvalidHexFlag(s@),
        }
    }
}

impl ParseError {
    /// The message that explains the failure.
    pub fn message(&self) -> (r: String)
        ensures
            r@ == message_of(self@),
    {
        match self {
            ParseError::EmptyFlag => String::from_str("encountered empty flag"),
            ParseError::InvalidNamedFlag(got) => {
                let mut m = String::from_str("unrecognized named flag `");
                m.append(got.as_str());
                m.append("`");
                m
            },
            ParseError::InvalidHexFlag(got) => {
                let mut m = String::from_str("invalid hex flag `");
                m.append(got.as_str());
                m.append("`");
                m
            },
        }
    }
}

pub open spec fn message_of(e: ParseFailure) -> Seq<char> {
    match e {
        ParseFailure::EmptyFlag => "encountered empty flag"@,
        ParseFailure::InvalidNamedFlag(got) => "unrecognized named flag `"@ + got + "`"@,
        ParseFailure::InvalidHexFlag(got) => "invalid hex flag `"@ + got + "`"@,
    }
}

/// `s` without its leading white space.
pub open spec fn trim_start(s: Seq<char>) -> Seq<char>
    decreases s.len(),
{
    if s.len() > 0 && white_space(s[0]) {
        trim_start(s.drop_first())
    } else {
        s
    }
}

/// `s` without its trailing white space.
pub open spec fn trim_end(s: Seq<char>) -> Seq<char>
    decreases s.len(),
{
    if s.len() > 0 && white_space(s.last()) {
        trim_end(s.drop_last())
    } else {
        s
    }
}

pub open spec fn trim(s: Seq<char>) -> Seq<char> {
    trim_end(trim_start(s))
}

/// The pieces of `s` between the `|` characters: one more than there are `|`.
pub open spec fn split_bar(s: Seq<char>) -> Seq<Seq<char>>
    decreases s.len(),
{
    if s.len() == 0 {
        seq![seq![]]
    } else {
        let parts = split_bar(s.drop_last());
        if s.last() == '|' {
            parts.push(seq![])
        } else {
            parts.update(parts.len() - 1, parts.last().push(s.last()))
        }
    }
}

pub open spec fn is_hex_digit(c: char) -> bool {
    ('0' <= c && c <= '9') || ('a' <= c && c <= 'f') || ('A' <= c && c <= 'F')
}

pub open spec fn hex_digit_value(c: char) -> nat {
    if '0' <= c && c <= '9' {
        (c as u32 - '0' as u32) as nat
    } else if 'a' <= c && c <= 'f' {
        (c as u32 - 'a' as u32 + 10) as nat
    } else {
        (c as u32 - 'A' as u32 + 10) as nat
    }
}

/// The number that hex digits `s` stand for.
pub open spec fn hex_number(s: Seq<char>) -> nat
    decreases s.len(),
{
    if s.len() == 0 {
        0
    } else {
        hex_number(s.drop_last()) * 16 + hex_digit_value(s.last())
    }
}

/// Text without the `+` that may lead it.
pub open spec fn unsigned_digits(s: Seq<char>) -> Seq<char> {
    if s.len() > 0 && s[0] == '+' {
        s.drop_first()
    } else {
        s
    }
}

/// The bits that hex text stands for, as `u32::from_str_radix(s, 16)` reads
/// it: an optional `+`, then at least one hex digit of either case, with a
/// value that fits.
pub open spec fn hex_value(s: Seq<char>) -> Option<u32> {
    let d = unsigned_digits(s);
    if d.len() > 0 && (forall|i: int| 0 <= i < d.len() ==> is_hex_digit(#[trigger] d[i]))
        && hex_number(d) <= u32::MAX {
        Some(hex_number(d) as u32)
    } else {
        None
    }
}

/// The bits of the first flag of `t`, from index `i`, named `name`.
pub open spec fn lookup(t: Seq<Flag>, i: int, name: Seq<char>) -> Option<u32>
    decreases t.len() - i,
{
    if i >= t.len() || name.len() == 0 {
        None
    } else if t[i].name@ == name {
        Some(t[i].bits)
    } else {
        lookup(t, i + 1, name)
    }
}

/// What one segment between two `|` stands for.
pub open spec fn parse_segment(t: Seq<Flag>, seg: Seq<char>) -> Result<u32, ParseFailure> {
    let x = trim(seg);
    if x.len() == 0 {
        Err(ParseFailure::EmptyFlag)
    } else if x.len() >= 2 && x[0] == '0' && x[1] == 'x' {
        match hex_value(x.skip(2)) {
            Some(v) => Ok(v),
            None => Err(ParseFailure::InvalidHexFlag(x.skip(2))),
        }
    } else {
        match lookup(t, 0, x) {
            Some(v) => Ok(v),
            None => Err(ParseFailure::InvalidNamedFlag(x)),
        }
    }
}

/// The union of what the segments stand for, or the failure of the first
/// one that stands for nothing.
pub open spec fn parse_segments(t: Seq<Flag>, segs: Seq<Seq<char>>) -> Result<u32, ParseFailure>
    decreases segs.len(),
{
    if segs.len() == 0 {
        Ok(0)
    } else {
        match parse_segments(t, segs.drop_last()) {
            Err(e) => Err(e),
            Ok(r) => match parse_segment(t, segs.last()) {
                Err(e) => Err(e),
                Ok(b) => Ok(r | b),
            },
        }
    }
}

/// What a text form stands for: nothing at all when it is blank.
pub open spec fn parse_text(t: Seq<Flag>, s: Seq<char>) -> Result<u32, ParseFailure> {
    if trim(s).len() == 0 {
        Ok(0)
    } else {
        parse_segments(t, split_bar(trim(s)))
    }
}

fn copy_range(v: &Vec<char>, a: usize, b: usize) -> (r: Vec<char>)
    requires
        a <= b <= v@.len(),
    ensures
        r@ == v@.subrange(a as int, b as int),
{
    let mut r: Vec<char> = Vec::new();
    let mut i = a;
    while i < b
        invariant
            a <= i <= b <= v@.len(),
            r@ == v@.subrange(a as int, i as int),
        decreases b - i,
    {
        r.push(v[i]);
        i = i + 1;
        assert(r@ =~= v@.subrange(a as int, i as int));
    }
    r
}

fn trim_chars(v: &Vec<char>) -> (r: Vec<char>)
    ensures
        r@ == trim(v@),
{
    let n = v.len();
    let mut a: usize = 0;
    assert(v@.subrange(0, n as int) =~= v@);
    while a < n && is_white_space(v[a])
        invariant
            a <= n == v@.len(),
            trim_start(v@) == trim_start(v@.subrange(a as int, n as int)),
        decreases n - a,
    {
        assert(v@.subrange(a as int, n as int).drop_first() =~= v@.subrange(a + 1, n as int));
        a = a + 1;
    }
    assert(trim_start(v@) == v@.subrange(a as int, n as int));
    let mut b: usize = n;
    while b > a && is_white_space(v[b - 1])
        invariant
            a <= b <= n == v@.len(),
            trim_end(v@.subrange(a as int, n as int)) == trim_end(v@.subrange(a as int, b as int)),
        decreases b - a,
    {
        assert(v@.subrange(a as int, b as int).drop_last() =~= v@.subrange(a as int, b - 1));
        b = b - 1;
    }
    copy_range(v, a, b)
}

proof fn lemma_split_step(s: Seq<char>, i: int)
    requires
        0 <= i < s.len(),
    ensures
        split_bar(s.take(i + 1)) == ({
            let parts = split_bar(s.take(i));
            if s[i] == '|' {
                parts.push(seq![])
            } else {
                parts.update(parts.len() - 1, parts.last().push(s[i]))
            }
        }),
{
    assert(s.take(i + 1).drop_last() =~= s.take(i));
}

proof fn lemma_split_nonempty(s: Seq<char>)
    ensures
        split_bar(s).len() >= 1,
    decreases s.len(),
{
    if s.len() > 0 {
        lemma_split_nonempty(s.drop_last());
    }
}

fn split_chars(v: &Vec<char>) -> (r: Vec<Vec<char>>)
    ensures
        r@.map_values(|p: Vec<char>| p@) == split_bar(v@),
{
    let mut parts: Vec<Vec<char>> = Vec::new();
    let mut cur: Vec<char> = Vec::new();
    let mut i: usize = 0;
    assert(v@.take(0) =~= seq![]);
    assert(parts@.map_values(|p: Vec<char>| p@).push(cur@) =~= split_bar(v@.take(0)));
    while i < v.len()
        invariant
            i <= v@.len(),
            parts@.map_values(|p: Vec<char>| p@).push(cur@) == split_bar(v@.take(i as int)),
        decreases v@.len() - i,
    {
        let c = v[i];
        proof {
            lemma_split_step(v@, i as int);
        }
        let ghost before = parts@.map_values(|p: Vec<char>| p@);
        if c == '|' {
            let done = cur;
            parts.push(done);
            cur = Vec::new();
            assert(parts@.map_values(|p: Vec<char>| p@) =~= before.push(done@));
            assert(parts@.map_values(|p: Vec<char>| p@).push(cur@) =~= before.push(done@).push(seq![]));
        } else {
            let ghost old_cur = cur@;
            cur.push(c);
            assert(before.push(old_cur).last() == old_cur);
            assert(parts@.map_values(|p: Vec<char>| p@).push(cur@) =~= before.push(old_cur).update(
                before.len() as int, old_cur.push(c)));
        }
        i = i + 1;
    }
    assert(v@.take(v@.len() as int) =~= v@);
    let ghost before = parts@.map_values(|p: Vec<char>| p@);
    parts.push(cur);
    assert(parts@.map_values(|p: Vec<char>| p@) =~= before.push(cur@));
    parts
}

proof fn lemma_hex_prefix(s: Seq<char>, j: int)
    requires
        0 <= j <= s.len(),
    ensures
        hex_number(s.take(j)) <= hex_number(s),
    decreases s.len(),
{
    if j < s.len() {
        lemma_hex_prefix(s.drop_last(), j);
        assert(s.drop_last().take(j) =~= s.take(j));
        let h = hex_number(s.drop_last());
        let d = hex_digit_value(s.last());
        assert(h <= h * 16 + d) by (nonlinear_arith);
    } else {
        assert(s.take(j) =~= s);
    }
}

fn hex_digit_value_exec(c: char) -> (r: Option<u32>)
    ensures
        r is Some <==> is_hex_digit(c),
        r is Some ==> r->0 as nat == hex_digit_value(c) && r->0 < 16,
{
    if '0' <= c && c <= '9' {
        Some(c as u32 - '0' as u32)
    } else if 'a' <= c && c <= 'f' {
        Some(c as u32 - 'a' as u32 + 10)
    } else if 'A' <= c && c <= 'F' {
        Some(c as u32 - 'A' as u32 + 10)
    } else {
        None
    }
}

/// Reads hex text as `u32::from_str_radix(s, 16)` does.
fn parse_hex(s: &Vec<char>, from: usize) -> (r: Option<u32>)
    requires
        from <= s@.len(),
    ensures
        r == hex_value(s@.skip(from as int)),
{
    let ghost x = s@.skip(from as int);
    let n = s.len();
    let mut k = from;
    if k < n && s[k] == '+' {
        k = k + 1;
    }
    let ghost d = s@.subrange(k as int, n as int);
    assert(d =~= unsigned_digits(x));
    if k == n {
        return None;
    }
    let mut acc: u64 = 0;
    let mut j = k;
    while j < n
        invariant
            from <= k <= j <= n == s@.len(),
            d == s@.subrange(k as int, n as int),
            d == unsigned_digits(x),
            x == s@.skip(from as int),
            acc as nat == hex_number(d.take(j - k)),
            acc <= u32::MAX,
            forall|i: int| 0 <= i < j - k ==> is_hex_digit(#[trigger] d[i]),
        decreases n - j,
    {
        assert(d.take(j - k + 1).drop_last() =~= d.take(j - k));
        assert(d.take(j - k + 1).last() == d[j - k]);
        assert(d[j - k] == s@[j as int]);
        match hex_digit_value_exec(s[j]) {
            None => {
                assert(!is_hex_digit(d[j - k]));
                assert(hex_value(x) is None);
                return None;
            },
            Some(v) => {
                acc = acc * 16 + v as u64;
                if acc > u32::MAX as u64 {
                    proof {
                        lemma_hex_prefix(d, j - k + 1);
                        assert(hex_value(x) is None);
                    }
                    return None;
                }
            },
        }
        j = j + 1;
    }
    assert(d.take(j - k) =~= d);
    Some(acc as u32)
}

/// The bits of the first flag of `table` named `name`.
fn lookup_exec(table: &Vec<Flag>, name: &Vec<char>) -> (r: Option<u32>)
    ensures
        r == lookup(table@, 0, name@),
{
    if name.len() == 0 {
        return None;
    }
    let wanted = string_of(name);
    let mut i: usize = 0;
    while i < table.len()
        invariant
            i <= table@.len(),
            name@.len() > 0,
            wanted@ == name@,
            lookup(table@, 0, name@) == lookup(table@, i as int, name@),
        decreases table@.len() - i,
    {
        if table[i].name.eq(&wanted) {
            return Some(table[i].bits);
        }
        i = i + 1;
    }
    None
}

fn parse_one(table: &Vec<Flag>, seg: &Vec<char>) -> (r: Result<u32, ParseError>)
    ensures
        match r {
            Ok(b) => parse_segment(table@, seg@) == Ok::<u32, ParseFailure>(b),
            Err(e) => parse_segment(table@, seg@) == Err::<u32, ParseFailure>(e@),
        },
{
    let x = trim_chars(seg);
    if x.len() == 0 {
        Err(ParseError::EmptyFlag)
    } else if x.len() >= 2 && x[0] == '0' && x[1] == 'x' {
        match parse_hex(&x, 2) {
            Some(v) => Ok(v),
            None => {
                let rest = copy_range(&x, 2, x.len());
                assert(rest@ =~= x@.skip(2));
                Err(ParseError::InvalidHexFlag(string_of(&rest)))
            },
        }
    } else {
        match lookup_exec(table, &x) {
            Some(v) => Ok(v),
            None => Err(ParseError::InvalidNamedFlag(string_of(&x))),
        }
    }
}

proof fn lemma_failure_stays(t: Seq<Flag>, segs: Seq<Seq<char>>, j: int, e: ParseFailure)
    requires
        0 <= j <= segs.len(),
        parse_segments(t, segs.take(j)) == Err::<u32, ParseFailure>(e),
    ensures
        parse_segments(t, segs) == Err::<u32, ParseFailure>(e),
    decreases segs.len(),
{
    if j < segs.len() {
        assert(segs.drop_last().take(j) =~= segs.take(j));
        lemma_failure_stays(t, segs.drop_last(), j, e);
    } else {
        assert(segs.take(j) =~= segs);
    }
}

/// Reads a text form: blank text is the empty value; otherwise each segment
/// between two `|`, white space trimmed, is a flag name of `table` or `0x`
/// and hex bits, and the value is the union of them all.
pub fn from_text(s: &str, table: &Vec<Flag>) -> (r: Result<Flags, ParseError>)
    ensures
        match r {
            Ok(f) => parse_text(table@, s@) == Ok::<u32, ParseFailure>(f.spec_bits()),
            Err(e) => parse_text(table@, s@) == Err::<u32, ParseFailure>(e@),
        },
{
    let all = chars_of(s);
    let trimmed = trim_chars(&all);
    if trimmed.len() == 0 {
        return Ok(Flags::empty());
    }
    let parts = split_chars(&trimmed);
    let ghost segs = split_bar(trimmed@);
    let mut acc: u32 = 0;
    let mut i: usize = 0;
    assert(segs.take(0) =~= seq![]);
    while i < parts.len()
        invariant
            i <= parts@.len() == segs.len(),
            segs == parts@.map_values(|p: Vec<char>| p@),
            segs == split_bar(trim(s@)),
            trim(s@).len() > 0,
            parse_segments(table@, segs.take(i as int)) == Ok::<u32, ParseFailure>(acc),
        decreases parts@.len() - i,
    {
        assert(segs.take(i + 1).drop_last() =~= segs.take(i as int));
        assert(segs.take(i + 1).last() == segs[i as int]);
        assert(segs[i as int] == parts@[i as int]@);
        match parse_one(table, &parts[i]) {
            Ok(b) => {
                acc = acc | b;
            },
            Err(e) => {
                proof {
                    assert(parse_segment(table@, segs[i as int]) == Err::<u32, ParseFailure>(e@));
                    assert(parse_segments(table@, segs.take(i + 1)) == Err::<u32, ParseFailure>(e@));
                    lemma_failure_stays(table@, segs, i + 1, e@);
                    assert(parse_text(table@, s@) == parse_segments(table@, segs));
                }
                return Err(e);
            },
        }
        i = i + 1;
    }
    assert(segs.take(i as int) =~= segs);
    Ok(Flags::from_bits_retain(acc))
}

// ---------------------------------------------------------------- round trip

/// A flag name that reads back as itself in the text form: not empty, no
/// `|`, no white space at either end, and not starting as hex does.
pub open spec fn plain_name(n: Seq<char>) -> bool {
    &&& n.len() > 0
    &&& forall|k: int| 0 <= k < n.len() ==> #[trigger] n[k] != '|'
    &&& !white_space(n[0])
    &&& !white_space(n.last())
    &&& !(n.len() >= 2 && n[0] == '0' && n[1] == 'x')
}

/// The flags of a type whose text form reads back: every named flag has a
/// plain name, and no two flags share a name.
pub open spec fn readable_table(t: Seq<Flag>) -> bool {
    &&& forall|i: int| 0 <= i < t.len() && #[trigger] t[i].name@.len() > 0 ==> plain_name(t[i].name@)
    &&& forall|i: int, j: int|
        0 <= i < t.len() && 0 <= j < t.len() && #[trigger] t[i].name@ == #[trigger] t[j].name@
            && t[i].name@.len() > 0 ==> i == j
}

/// `bits` is covered by named flags: its text form holds no hex.
pub open spec fn named_only(t: Seq<Flag>, bits: u32) -> bool {
    scan_names(t, 0, bits, bits).1 == 0
}

proof fn lemma_lookup_found(t: Seq<Flag>, j: int, i: int)
    requires
        readable_table(t),
        0 <= j <= i < t.len(),
        t[i].name@.len() > 0,
    ensures
        lookup(t, j, t[i].name@) == Some(t[i].bits),
    decreases i - j,
{
    if j < i {
        assert(t[j].name@ != t[i].name@);
        lemma_lookup_found(t, j + 1, i);
    }
}

proof fn lemma_trim_padded(n: Seq<char>, lead: bool, tail: bool)
    requires
        plain_name(n),
    ensures
        trim((if lead { seq![' '] } else { seq![] }) + n + (if tail { seq![' '] } else { seq![] }))
            == n,
{
    let a: Seq<char> = if lead { seq![' '] } else { seq![] };
    let b: Seq<char> = if tail { seq![' '] } else { seq![] };
    let s = a + n + b;
    assert(white_space(' '));
    assert((n + b)[0] == n[0]);
    assert(trim_start(n + b) == n + b);
    if lead {
        assert(s.drop_first() =~= n + b);
    } else {
        assert(s =~= n + b);
    }
    assert(trim_start(s) == n + b);
    assert(trim_end(n) == n);
    if tail {
        assert((n + b).drop_last() =~= n);
    } else {
        assert(n + b =~= n);
    }
    assert(trim_end(n + b) == n);
}

proof fn lemma_split_plain(s: Seq<char>, w: Seq<char>)
    requires
        forall|k: int| 0 <= k < w.len() ==> #[trigger] w[k] != '|',
    ensures
        split_bar(s).len() >= 1,
        split_bar(s + w) == split_bar(s).update(split_bar(s).len() - 1, split_bar(s).last() + w),
    decreases w.len(),
{
    lemma_split_nonempty(s);
    if w.len() == 0 {
        assert(s + w =~= s);
        assert(split_bar(s).last() + w =~= split_bar(s).last());
        assert(split_bar(s).update(split_bar(s).len() - 1, split_bar(s).last()) =~= split_bar(s));
    } else {
        let w0 = w.drop_last();
        lemma_split_plain(s, w0);
        assert((s + w).drop_last() =~= s + w0);
        assert((s + w).last() == w.last());
        assert(w.last() != '|');
        let p = split_bar(s);
        let parts = split_bar(s + w0);
        assert(parts == p.update(p.len() - 1, p.last() + w0));
        assert(parts.len() == p.len());
        assert(parts.last() == p.last() + w0);
        assert(split_bar(s + w) == parts.update(parts.len() - 1, parts.last().push(w.last())));
        assert(p.last() + w0 + seq![w.last()] =~= p.last() + w);
        assert((p.last() + w0).push(w.last()) =~= p.last() + w);
        assert(split_bar(s + w) =~= p.update(p.len() - 1, p.last() + w));
    }
}

/// Pieces of the joined names, as split at `|`, trim to the names, and the
/// joined text neither starts nor ends with white space.
proof fn lemma_split_join(ns: Seq<Seq<char>>)
    requires
        ns.len() >= 1,
        forall|k: int| 0 <= k < ns.len() ==> plain_name(#[trigger] ns[k]),
    ensures
        split_bar(join(ns)).len() == ns.len(),
        forall|k: int| 0 <= k < ns.len() - 1 ==> trim(#[trigger] split_bar(join(ns))[k]) == ns[k],
        split_bar(join(ns)).last() == (if ns.len() == 1 { seq![] } else { seq![' '] }) + ns.last(),
        join(ns).len() > 0,
        join(ns)[0] == ns[0][0],
        join(ns).last() == ns.last().last(),
    decreases ns.len(),
{
    let x = ns.last();
    assert(plain_name(x));
    if ns.len() == 1 {
        lemma_split_plain(seq![], x);
        assert(seq![] + x =~= x);
        assert(split_bar(seq![]) =~= seq![seq![]]);
        assert(seq![] + x =~= x);
        assert(seq![seq![]].update(0, seq![] + x) =~= seq![x]);
    } else {
        let init = ns.drop_last();
        assert forall|k: int| 0 <= k < init.len() implies plain_name(#[trigger] init[k]) by {
            assert(init[k] == ns[k]);
        }
        lemma_split_join(init);
        assert(ns =~= init.push(x));
        lemma_join_push(init, x);
        let j = join(init);
        let p = split_bar(j);
        let lead: Seq<char> = if init.len() == 1 { seq![] } else { seq![' '] };
        // join(ns) == ((j + " ") + "|") + (" " + x)
        let sp = seq![' '];
        assert(join(ns) =~= (j + sp).push('|') + (sp + x));
        lemma_split_plain(j, sp);
        let q = p.update(p.len() - 1, p.last() + sp);
        assert(split_bar(j + sp) == q);
        assert((j + sp).push('|').drop_last() =~= j + sp);
        assert(split_bar((j + sp).push('|')) == q.push(seq![]));
        assert forall|k: int| 0 <= k < (sp + x).len() implies #[trigger] (sp + x)[k] != '|' by {
            if k > 0 {
                assert((sp + x)[k] == x[k - 1]);
            }
        }
        lemma_split_plain((j + sp).push('|'), sp + x);
        let r = q.push(seq![]).update(q.len() as int, seq![] + (sp + x));
        assert(split_bar(join(ns)) == r);
        assert(seq![] + (sp + x) =~= sp + x);
        assert forall|k: int| 0 <= k < ns.len() - 1 implies trim(#[trigger] r[k]) == ns[k] by {
            if k < init.len() - 1 {
                assert(r[k] == p[k]);
            } else {
                assert(r[k] == lead + init.last() + sp);
                assert(init.last() == ns[k]);
                lemma_trim_padded(init.last(), init.len() != 1, true);
            }
        }
        assert(join(ns)[0] == j[0]);
        assert(join(ns).last() == x.last());
    }
}

proof fn lemma_trim_unchanged(s: Seq<char>)
    requires
        s.len() > 0,
        !white_space(s[0]),
        !white_space(s.last()),
    ensures
        trim(s) == s,
{
}

proof fn lemma_parse_same_trims(t: Seq<Flag>, a: Seq<Seq<char>>, b: Seq<Seq<char>>)
    requires
        a.len() == b.len(),
        forall|k: int| 0 <= k < a.len() ==> trim(#[trigger] a[k]) == trim(b[k]),
    ensures
        parse_segments(t, a) == parse_segments(t, b),
    decreases a.len(),
{
    if a.len() > 0 {
        assert forall|k: int| 0 <= k < a.len() - 1 implies trim(#[trigger] a.drop_last()[k]) == trim(
            b.drop_last()[k],
        ) by {
            assert(trim(a[k]) == trim(b[k]));
        }
        lemma_parse_same_trims(t, a.drop_last(), b.drop_last());
        assert(trim(a[a.len() - 1]) == trim(b[b.len() - 1]));
    }
}

proof fn lemma_parse_cons(t: Seq<Flag>, x: Seq<char>, ns: Seq<Seq<char>>, b: u32, v: u32)
    requires
        parse_segment(t, x) == Ok::<u32, ParseFailure>(b),
        parse_segments(t, ns) == Ok::<u32, ParseFailure>(v),
    ensures
        parse_segments(t, seq![x] + ns) == Ok::<u32, ParseFailure>(b | v),
    decreases ns.len(),
{
    if ns.len() == 0 {
        assert((seq![x] + ns).drop_last() =~= Seq::<Seq<char>>::empty());
        assert(seq![x] + ns =~= seq![x]);
        assert(parse_segments(t, Seq::<Seq<char>>::empty()) == Ok::<u32, ParseFailure>(0));
        assert(v == 0);
        assert(0u32 | b == b | 0u32) by (bit_vector);
        assert(seq![x].last() == x);
    } else {
        let init = ns.drop_last();
        let c = parse_segment(t, ns.last())->Ok_0;
        let v0 = parse_segments(t, init)->Ok_0;
        lemma_parse_cons(t, x, init, b, v0);
        assert((seq![x] + ns).drop_last() =~= seq![x] + init);
        assert((seq![x] + ns).last() == ns.last());
        assert(v == v0 | c);
        assert((b | v0) | c == b | (v0 | c)) by (bit_vector);
    }
}

proof fn lemma_cover_step(source: u32, f: u32, rem: u32, v: u32, r: u32)
    requires
        source & f == f,
        v & source == v,
        (rem & !f) & (v | r) == rem & !f,
    ensures
        (f | v) & source == f | v,
        rem & ((f | v) | r) == rem,
{
    assert((f | v) & source == f | v) by (bit_vector)
        requires
            source & f == f,
            v & source == v,
    ;
    assert(rem & ((f | v) | r) == rem) by (bit_vector)
        requires
            (rem & !f) & (v | r) == rem & !f,
    ;
}

/// The names that a scan takes are plain, read back to bits within
/// `source`, and those bits with what is left cover `rem`.
proof fn lemma_scan_reads_back(t: Seq<Flag>, i: int, source: u32, rem: u32)
    requires
        readable_table(t),
        0 <= i,
    ensures
        ({
            let (ns, r) = scan_names(t, i, source, rem);
            &&& forall|k: int| 0 <= k < ns.len() ==> plain_name(#[trigger] ns[k])
            &&& parse_segments(t, ns) is Ok
            &&& parse_segments(t, ns)->Ok_0 & source == parse_segments(t, ns)->Ok_0
            &&& rem & (parse_segments(t, ns)->Ok_0 | r) == rem
        }),
    decreases t.len() - i,
{
    if i >= t.len() || rem == 0 {
        assert(0u32 & source == 0u32 && rem & (0u32 | rem) == rem) by (bit_vector);
    } else if takes(t[i], source, rem) {
        let f = t[i];
        lemma_scan_reads_back(t, i + 1, source, rem & !f.bits);
        let (ns0, r) = scan_names(t, i + 1, source, rem & !f.bits);
        let ns = seq![f.name@] + ns0;
        let v = parse_segments(t, ns0)->Ok_0;
        assert(plain_name(f.name@));
        lemma_trim_unchanged(f.name@);
        lemma_lookup_found(t, 0, i);
        assert(parse_segment(t, f.name@) == Ok::<u32, ParseFailure>(f.bits));
        lemma_parse_cons(t, f.name@, ns0, f.bits, v);
        lemma_cover_step(source, f.bits, rem, v, r);
        assert forall|k: int| 0 <= k < ns.len() implies plain_name(#[trigger] ns[k]) by {
            if k > 0 {
                assert(ns[k] == ns0[k - 1]);
            }
        }
    } else {
        lemma_scan_reads_back(t, i + 1, source, rem);
    }
}

/// The text form of a value covered by named flags of a readable table
/// reads back to the same bits.
pub proof fn lemma_text_reads_back(t: Seq<Flag>, bits: u32)
    requires
        readable_table(t),
        named_only(t, bits),
    ensures
        parse_text(t, text_of(t, bits)) == Ok::<u32, ParseFailure>(bits),
{
    lemma_scan_reads_back(t, 0, bits, bits);
    let (ns, r) = scan_names(t, 0, bits, bits);
    let v = parse_segments(t, ns)->Ok_0;
    assert(segments_of(t, bits) == ns);
    assert(v == bits) by (bit_vector)
        requires
            v & bits == v,
            bits & (v | r) == bits,
            r == 0,
    ;
    if ns.len() == 0 {
        assert(trim_start(seq![]) == Seq::<char>::empty());
        assert(trim(join(ns)) == Seq::<char>::empty());
        assert(v == 0);
    } else {
        lemma_split_join(ns);
        let s = join(ns);
        assert(plain_name(ns[0]));
        assert(plain_name(ns.last()));
        lemma_trim_unchanged(s);
        let p = split_bar(s);
        assert forall|k: int| 0 <= k < p.len() implies trim(#[trigger] p[k]) == trim(ns[k]) by {
            lemma_trim_unchanged(ns[k]);
            if k == p.len() - 1 {
                lemma_trim_padded(ns.last(), ns.len() != 1, false);
                assert(p[k] == (if ns.len() == 1 { seq![] } else { seq![' '] }) + ns.last() + seq![]);
            }
        }
        lemma_parse_same_trims(t, p, ns);
    }
}

} // verus!
