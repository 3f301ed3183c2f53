//! Characters, UTF-8 / UTF-16 widths, decimal numbers and string building.
use vstd::prelude::*;
use vstd::utf8::encode_utf8;
use vstd::utf8::encode_scalar;

verus! {

/// Number of bytes `c` takes in UTF-8.
pub open spec fn utf8_width(c: char) -> nat {
    let u = c as u32;
    if u <= 0x7F {
        1
    } else if u <= 0x7FF {
        2
    } else if u <= 0xFFFF {
        3
    } else {
        4
    }
}

/// Number of UTF-16 code units `c` takes.
pub open spec fn utf16_width(c: char) -> nat {
    if (c as u32) <= 0xFFFF {
        1
    } else {
        2
    }
}

/// UTF-8 length of a character sequence.
pub open spec fn byte_len(cs: Seq<char>) -> nat
    decreases cs.len(),
{
    if cs.len() == 0 {
        0
    } else {
        byte_len(cs.drop_last()) + utf8_width(cs.last())
    }
}

/// UTF-16 length of a character sequence.
pub open spec fn utf16_len(cs: Seq<char>) -> nat
    decreases cs.len(),
{
    if cs.len() == 0 {
        0
    } else {
        utf16_len(cs.drop_last()) + utf16_width(cs.last())
    }
}

/// Byte offset of the character at index `i`.
pub open spec fn boff(cs: Seq<char>, i: int) -> nat {
    byte_len(cs.take(i))
}

/// The Unicode `White_Space` property, as `char::is_whitespace` documents it.
pub open spec fn is_white_space(c: char) -> bool {
    let u = c as u32;
    ||| 0x09 <= u <= 0x0D
    ||| u == 0x20
    ||| u == 0x85
    ||| u == 0xA0
    ||| u == 0x1680
    ||| 0x2000 <= u <= 0x200A
    ||| u == 0x2028
    ||| u == 0x2029
    ||| u == 0x202F
    ||| u == 0x205F
    ||| u == 0x3000
}

pub open spec fn is_digit(c: char) -> bool {
    '0' <= c <= '9'
}

pub open spec fn is_ascii_alnum(c: char) -> bool {
    ||| '0' <= c <= '9'
    ||| 'a' <= c <= 'z'
    ||| 'A' <= c <= 'Z'
}

pub open spec fn all_digits(cs: Seq<char>) -> bool {
    forall|i: int| 0 <= i < cs.len() ==> is_digit(#[trigger] cs[i])
}

pub open spec fn digit_value(c: char) -> nat {
    ((c as u32) - ('0' as u32)) as nat
}

/// Decimal value of a sequence of ASCII digits.
pub open spec fn digits_value(cs: Seq<char>) -> nat
    decreases cs.len(),
{
    if cs.len() == 0 {
        0
    } else {
        digits_value(cs.drop_last()) * 10 + digit_value(cs.last())
    }
}

/// What `u32::from_str` on ASCII digits gives, with overflow saturated to `u32::MAX`.
pub open spec fn saturating_u32(cs: Seq<char>) -> u32 {
    if digits_value(cs) > u32::MAX {
        u32::MAX
    } else {
        digits_value(cs) as u32
    }
}

pub open spec fn digit_char(d: nat) -> char {
    (('0' as u32) + d) as char
}

/// Decimal representation of `n`, as `Display` writes it.
pub open spec fn decimal(n: nat) -> Seq<char>
    decreases n,
{
    if n < 10 {
        seq![digit_char(n)]
    } else {
        decimal(n / 10).push(digit_char(n % 10))
    }
}

/// Count of occurrences of `c` in `cs`.
pub open spec fn count_char(cs: Seq<char>, c: char) -> nat
    decreases cs.len(),
{
    if cs.len() == 0 {
        0
    } else {
        count_char(cs.drop_last(), c) + if cs.last() == c {
            1nat
        } else {
            0nat
        }
    }
}

pub open spec fn contains_char(cs: Seq<char>, c: char) -> bool {
    exists|i: int| 0 <= i < cs.len() && cs[i] == c
}

pub proof fn lemma_byte_len_concat(a: Seq<char>, b: Seq<char>)
    ensures
        byte_len(a + b) == byte_len(a) + byte_len(b),
    decreases b.len(),
{
    if b.len() == 0 {
        assert(a + b =~= a);
    } else {
        assert((a + b).drop_last() =~= a + b.drop_last());
        lemma_byte_len_concat(a, b.drop_last());
    }
}

pub proof fn lemma_encode_len(cs: Seq<char>)
    ensures
        encode_utf8(cs).len() == byte_len(cs),
    decreases cs.len(),
{
    if cs.len() > 0 {
        lemma_encode_len(cs.drop_first());
        lemma_byte_len_concat(seq![cs[0]], cs.drop_first());
        assert(seq![cs[0]] + cs.drop_first() =~= cs);
        assert(seq![cs[0]].drop_last() =~= Seq::<char>::empty());
        vstd::utf8::char_is_scalar(cs[0]);
        assert(encode_scalar(cs[0] as u32).len() == utf8_width(cs[0]));
        assert(byte_len(seq![cs[0]]) == byte_len(Seq::<char>::empty()) + utf8_width(cs[0]));
        assert(encode_utf8(cs) == encode_scalar(cs[0] as u32) + encode_utf8(cs.drop_first()));
    }
}

pub proof fn lemma_byte_len_take_mono(cs: Seq<char>, i: int, j: int)
    requires
        0 <= i <= j <= cs.len(),
    ensures
        boff(cs, i) <= boff(cs, j),
    decreases j - i,
{
    if i < j {
        lemma_byte_len_take_mono(cs, i, j - 1);
        assert(cs.take(j).drop_last() =~= cs.take(j - 1));
    }
}

/// Step lemma: the byte offset of the next character.
pub proof fn lemma_boff_step(cs: Seq<char>, i: int)
    requires
        0 <= i < cs.len(),
    ensures
        boff(cs, i + 1) == boff(cs, i) + utf8_width(cs[i]),
{
    assert(cs.take(i + 1).drop_last() =~= cs.take(i));
}

pub proof fn lemma_boff_bound(cs: Seq<char>, i: int)
    requires
        0 <= i <= cs.len(),
    ensures
        boff(cs, i) <= byte_len(cs),
{
    lemma_byte_len_take_mono(cs, i, cs.len() as int);
    assert(cs.take(cs.len() as int) =~= cs);
}

/// Every character takes at least one byte.
pub proof fn lemma_boff_ge_count(cs: Seq<char>, i: int, j: int)
    requires
        0 <= i <= j <= cs.len(),
    ensures
        boff(cs, j) >= boff(cs, i) + (j - i),
    decreases j - i,
{
    if i < j {
        lemma_boff_ge_count(cs, i, j - 1);
        lemma_boff_step(cs, j - 1);
    }
}

pub fn char_utf8_width(c: char) -> (w: usize)
    ensures
        w == utf8_width(c),
        1 <= w <= 4,
{
    let u = c as u32;
    if u <= 0x7F {
        1
    } else if u <= 0x7FF {
        2
    } else if u <= 0xFFFF {
        3
    } else {
        4
    }
}

pub fn char_utf16_width(c: char) -> (w: u32)
    ensures
        w == utf16_width(c),
{
    if (c as u32) <= 0xFFFF {
        1
    } else {
        2
    }
}

pub fn is_whitespace(c: char) -> (b: bool)
    ensures
        b == is_white_space(c),
{
    let u = c as u32;
    (0x09 <= u && u <= 0x0D) || u == 0x20 || u == 0x85 || u == 0xA0 || u == 0x1680 || (0x2000 <= u
        && u <= 0x200A) || u == 0x2028 || u == 0x2029 || u == 0x202F || u == 0x205F || u == 0x3000
}

pub fn is_ascii_digit(c: char) -> (b: bool)
    ensures
        b == is_digit(c),
{
    '0' <= c && c <= '9'
}

/// The characters of `s`, with the UTF-8 length of `s`.
pub fn str_chars(s: &str) -> (res: (Vec<char>, usize))
    ensures
        res.0@ == s@,
        res.1 == byte_len(s@),
{
    let bytes = s.as_bytes();
    let n = bytes.len();
    proof {
        lemma_encode_len(s@);
    }
    let mut v: Vec<char> = Vec::new();
    for c in it: s.chars()
        invariant
            v@ == it.seq().take(it.index() as int),
            it.seq() == s@,
    {
        v.push(c);
        assert(it.seq().take(it.index() + 1) =~= v@);
    }
    assert(v@ =~= s@);
    (v, n)
}

/// Appends `c` to `s` with std's `String::push`. Trusted, not proved: the contract claims
/// what std documents, that the string's characters become the old ones followed by `c`.
#[verifier::external_body]
pub(crate) fn push_char(s: &mut String, c: char)
    ensures
        final(s)@ == old(s)@.push(c),
{
    s.push(c);
}

/// A `String` holding `cs[from..to]`.
pub fn string_of(cs: &Vec<char>, from: usize, to: usize) -> (s: String)
    requires
        from <= to <= cs@.len(),
    ensures
        s@ == cs@.subrange(from as int, to as int),
{
    let mut s = String::new();
    let mut i = from;
    while i < to
        invariant
            from <= i <= to <= cs@.len(),
            s@ == cs@.subrange(from as int, i as int),
        decreases to - i,
    {
        push_char(&mut s, cs[i]);
        assert(s@ =~= cs@.subrange(from as int, i + 1));
        i = i + 1;
    }
    s
}

/// A `String` holding the characters of `cs`.
pub fn string_of_all(cs: &Vec<char>) -> (s: String)
    ensures
        s@ == cs@,
{
    let s = string_of(cs, 0, cs.len());
    assert(cs@.subrange(0, cs@.len() as int) =~= cs@);
    s
}

/// The characters of a `String`.
pub fn chars_of(s: &String) -> (v: Vec<char>)
    ensures
        v@ == s@,
{
    let (v, _n) = str_chars(s.as_str());
    v
}

/// Appends `t` to `s`.
pub fn append_str(s: &mut String, t: &str)
    ensures
        final(s)@ == old(s)@ + t@,
{
    s.append(t);
}

/// Appends the characters of `t` to `s`.
pub fn append_string(s: &mut String, t: &String)
    ensures
        final(s)@ == old(s)@ + t@,
{
    s.append(t.as_str());
}

/// `decimal(n)` is a non-empty run of digits whose value is `n`.
pub proof fn lemma_decimal_digits(n: nat)
    ensures
        decimal(n).len() >= 1,
        all_digits(decimal(n)),
        digits_value(decimal(n)) == n,
    decreases n,
{
    lemma_digit_char_value(n % 10);
    if n < 10 {
        assert(decimal(n).drop_last() =~= Seq::<char>::empty());
        assert(digits_value(decimal(n)) == digits_value(Seq::<char>::empty()) * 10 + digit_value(
            digit_char(n),
        ));
    } else {
        lemma_decimal_digits(n / 10);
        let t = decimal(n / 10);
        assert(decimal(n).drop_last() =~= t);
        assert(decimal(n).last() == digit_char(n % 10));
        assert(digits_value(decimal(n)) == digits_value(t) * 10 + digit_value(digit_char(n % 10)));
        assert((n / 10) * 10 + n % 10 == n);
        assert forall|i: int| 0 <= i < decimal(n).len() implies is_digit(#[trigger] decimal(n)[i]) by {
            if i < t.len() {
                assert(decimal(n)[i] == t[i]);
            }
        }
    }
}

proof fn lemma_digit_char_value(d: nat)
    requires
        d < 10,
    ensures
        is_digit(digit_char(d)),
        digit_value(digit_char(d)) == d,
{
    assert(digit_char(d) as u32 == 48 + d);
}

proof fn lemma_decimal_nonempty(n: nat)
    ensures
        decimal(n).len() >= 1,
    decreases n,
{
    if n >= 10 {
        lemma_decimal_nonempty(n / 10);
    }
}

/// Decimal text of `n`, as `n.to_string()` writes it.
#[verifier::spinoff_prover]
#[verifier::rlimit(40)]
pub fn u32_to_string(n: u32) -> (s: String)
    ensures
        s@ == decimal(n as nat),
{
    // digits collected least significant first
    let mut rev: Vec<char> = Vec::new();
    let mut m = n;
    let ghost mut rest: nat = n as nat;
    loop
        invariant_except_break
            m as nat == rest,
            decimal(n as nat) == decimal(rest) + rev@.reverse(),
        ensures
            decimal(n as nat) == rev@.reverse(),
        decreases m,
    {
        let d = m % 10;
        let c = char_from_digit(d);
        proof {
            if rest >= 10 {
                assert(decimal(rest) == decimal(rest / 10).push(digit_char(rest % 10)));
            } else {
                assert(decimal(rest) == seq![digit_char(rest)]);
            }
        }
        let ghost old_rev = rev@;
        let ghost old_rest = rest;
        rev.push(c);
        assert(rev@.reverse() =~= seq![c] + old_rev.reverse());
        m = m / 10;
        proof {
            rest = rest / 10;
        }
        if m == 0 {
            assert(decimal(old_rest) + old_rev.reverse() =~= rev@.reverse());
            break;
        }
        assert(decimal(old_rest) + old_rev.reverse() =~= decimal(rest) + rev@.reverse());
    }
    let mut s = String::new();
    let mut i = rev.len();
    while i > 0
        invariant
            i <= rev@.len(),
            s@ + rev@.take(i as int).reverse() == rev@.reverse(),
        decreases i,
    {
        i = i - 1;
        let ghost before = s@;
        push_char(&mut s, rev[i]);
        assert(rev@.take(i + 1).reverse() =~= seq![rev@[i as int]] + rev@.take(i as int).reverse());
        assert(s@ + rev@.take(i as int).reverse() =~= before + rev@.take(i + 1).reverse());
    }
    assert(rev@.take(0).reverse() =~= Seq::<char>::empty());
    assert(s@ =~= rev@.reverse());
    assert(decimal(n as nat) =~= rev@.reverse());
    s
}

fn char_from_digit(d: u32) -> (c: char)
    requires
        d < 10,
    ensures
        c == digit_char(d as nat),
{
    if d == 0 {
        '0'
    } else if d == 1 {
        '1'
    } else if d == 2 {
        '2'
    } else if d == 3 {
        '3'
    } else if d == 4 {
        '4'
    } else if d == 5 {
        '5'
    } else if d == 6 {
        '6'
    } else if d == 7 {
        '7'
    } else if d == 8 {
        '8'
    } else {
        '9'
    }
}

/// Value of the ASCII digits `cs[from..to]`, saturated to `u32::MAX` (what
/// `parse::<u32>().unwrap_or(u32::MAX)` gives on digits).
pub fn parse_digits(cs: &Vec<char>, from: usize, to: usize) -> (v: u32)
    requires
        from <= to <= cs@.len(),
        all_digits(cs@.subrange(from as int, to as int)),
    ensures
        v == saturating_u32(cs@.subrange(from as int, to as int)),
{
    let mut acc: u64 = 0;
    let mut sat = false;
    let mut i = from;
    while i < to
        invariant
            from <= i <= to <= cs@.len(),
            all_digits(cs@.subrange(from as int, to as int)),
            sat ==> digits_value(cs@.subrange(from as int, i as int)) > u32::MAX,
            !sat ==> acc == digits_value(cs@.subrange(from as int, i as int)) && acc <= u32::MAX,
        decreases to - i,
    {
        let c = cs[i];
        assert(cs@.subrange(from as int, to as int)[i - from] == c);
        let d = (c as u32 - '0' as u32) as u64;
        let ghost pre = cs@.subrange(from as int, i as int);
        assert(cs@.subrange(from as int, i + 1).drop_last() =~= pre);
        assert(digits_value(cs@.subrange(from as int, i + 1)) == digits_value(pre) * 10 + d);
        if !sat {
            acc = acc * 10 + d;
            if acc > 0xFFFF_FFFF {
                sat = true;
            }
        }
        i = i + 1;
    }
    if sat {
        u32::MAX
    } else {
        acc as u32
    }
}

/// Whether `cs[from..to]` is all ASCII digits.
pub fn digits_in(cs: &Vec<char>, from: usize, to: usize) -> (b: bool)
    requires
        from <= to <= cs@.len(),
    ensures
        b == all_digits(cs@.subrange(from as int, to as int)),
{
    let ghost sub = cs@.subrange(from as int, to as int);
    let mut i = from;
    while i < to
        invariant
            from <= i <= to <= cs@.len(),
            sub == cs@.subrange(from as int, to as int),
            forall|k: int| from <= k < i ==> is_digit(#[trigger] cs@[k]),
        decreases to - i,
    {
        if !is_ascii_digit(cs[i]) {
            assert(sub[i - from] == cs@[i as int]);
            return false;
        }
        i = i + 1;
    }
    assert forall|k: int| 0 <= k < sub.len() implies is_digit(#[trigger] sub[k]) by {
        assert(sub[k] == cs@[from + k]);
    }
    true
}

/// `cs[from..to] == lit`.
pub fn chars_eq_str(cs: &Vec<char>, from: usize, to: usize, lit: &str) -> (b: bool)
    requires
        from <= to <= cs@.len(),
    ensures
        b == (cs@.subrange(from as int, to as int) == lit@),
{
    let n = lit.unicode_len();
    if to - from != n {
        return false;
    }
    let mut i: usize = 0;
    while i < n
        invariant
            n == lit@.len(),
            to - from == n,
            from <= to <= cs@.len(),
            i <= n,
            forall|k: int| 0 <= k < i ==> cs@[from + k] == lit@[k],
        decreases n - i,
    {
        if cs[from + i] != lit.get_char(i) {
            assert(cs@.subrange(from as int, to as int)[i as int] != lit@[i as int]);
            return false;
        }
        i = i + 1;
    }
    assert(cs@.subrange(from as int, to as int) =~= lit@);
    true
}

} // verus!

verus! {

/// A query's characters with its UTF-8 length.
pub struct SourceText {
    pub chars: Vec<char>,
    pub len: usize,
}

impl SourceText {
    pub open spec fn wf(&self) -> bool {
        &&& self.len == byte_len(self.chars@)
        &&& self.chars@.len() <= self.len
    }

    /// Byte offset of character `j`, counted on from character `i` at byte `bi`.
    pub fn byte_offset(&self, i: usize, bi: usize, j: usize) -> (r: usize)
        requires
            self.wf(),
            i <= j <= self.chars@.len(),
            bi == boff(self.chars@, i as int),
        ensures
            r == boff(self.chars@, j as int),
    {
        let mut k = i;
        let mut b = bi;
        while k < j
            invariant
                self.wf(),
                i <= k <= j <= self.chars@.len(),
                b == boff(self.chars@, k as int),
            decreases j - k,
        {
            proof {
                lemma_boff_step(self.chars@, k as int);
                lemma_boff_bound(self.chars@, k + 1);
            }
            b = b + char_utf8_width(self.chars[k]);
            k = k + 1;
        }
        b
    }

    pub fn new(s: &str) -> (r: SourceText)
        ensures
            r.wf(),
            r.chars@ == s@,
    {
        let (chars, len) = str_chars(s);
        proof {
            lemma_boff_ge_count(chars@, 0, chars@.len() as int);
            assert(chars@.take(chars@.len() as int) =~= chars@);
        }
        SourceText { chars, len }
    }
}

} // verus!
