//! Characters and strings: building, trimming, decimal numbers.
use vstd::arithmetic::power::pow;
use vstd::prelude::*;
use vstd::string::StringExecFns;

verus! {

/// `String::push`: appends one character to the end of the string.
pub assume_specification[ String::push ](s: &mut String, c: char)
    ensures
        final(s)@ == old(s)@.push(c),
;

/// The characters of a string, in order.
pub fn chars_of(s: &str) -> (v: Vec<char>)
    ensures
        v@ == s@,
{
    let mut v: Vec<char> = Vec::new();
    for c in it: s.chars()
        invariant
            it.seq() == s@,
            v@ == s@.take(it.index() as int),
    {
        v.push(c);
        proof {
            assert(s@.take(it.index() as int + 1) =~= s@.take(it.index() as int).push(c));
        }
    }
    proof {
        assert(s@.take(s@.len() as int) =~= s@);
    }
    v
}

/// The string made of `chars[from..to]`.
pub fn string_of(chars: &Vec<char>, from: usize, to: usize) -> (s: String)
    requires
        from <= to <= chars@.len(),
    ensures
        s@ == chars@.subrange(from as int, to as int),
{
    let mut s = String::new();
    let mut i: usize = from;
    while i < to
        invariant
            from <= i <= to <= chars@.len(),
            s@ == chars@.subrange(from as int, i as int),
        decreases to - i,
    {
        s.push(chars[i]);
        proof {
            assert(chars@.subrange(from as int, i as int + 1) =~= chars@.subrange(
                from as int,
                i as int,
            ).push(chars@[i as int]));
        }
        i += 1;
    }
    s
}

/// `a` followed by `b`.
pub fn joined(a: &str, b: &str) -> (s: String)
    ensures
        s@ == a@ + b@,
{
    let mut s = a.to_owned();
    s.append(b);
    s
}

/// The characters with Unicode's `White_Space` property.
pub open spec fn is_white(c: char) -> bool {
    let n = c as u32;
    ||| 0x9 <= n <= 0xd
    ||| n == 0x20
    ||| n == 0x85
    ||| n == 0xa0
    ||| n == 0x1680
    ||| 0x2000 <= n <= 0x200a
    ||| n == 0x2028
    ||| n == 0x2029
    ||| n == 0x202f
    ||| n == 0x205f
    ||| n == 0x3000
}

/// Whether `c` is white space.
pub fn white(c: char) -> (r: bool)
    ensures
        r == is_white(c),
{
    let n: u32 = c as u32;
    (0x9 <= n && n <= 0xd) || n == 0x20 || n == 0x85 || n == 0xa0 || n == 0x1680 || (0x2000 <= n
        && n <= 0x200a) || n == 0x2028 || n == 0x2029 || n == 0x202f || n == 0x205f || n == 0x3000
}

/// A text with nothing in it but white space.
pub open spec fn is_blank(s: Seq<char>) -> bool {
    forall|i: int| 0 <= i < s.len() ==> is_white(#[trigger] s[i])
}

/// Whether the text is empty or all white space.
pub fn blank(s: &str) -> (r: bool)
    ensures
        r == is_blank(s@),
{
    let chars = chars_of(s);
    let mut i: usize = 0;
    while i < chars.len()
        invariant
            i <= chars@.len(),
            chars@ == s@,
            forall|j: int| 0 <= j < i ==> is_white(#[trigger] chars@[j]),
        decreases chars@.len() - i,
    {
        if !white(chars[i]) {
            return false;
        }
        i += 1;
    }
    true
}

/// The text without the white space at its start.
pub open spec fn trim_start(s: Seq<char>) -> Seq<char>
    decreases s.len(),
{
    if s.len() > 0 && is_white(s[0]) {
        trim_start(s.drop_first())
    } else {
        s
    }
}

/// The text without the white space at its end.
pub open spec fn trim_end(s: Seq<char>) -> Seq<char>
    decreases s.len(),
{
    if s.len() > 0 && is_white(s.last()) {
        trim_end(s.drop_last())
    } else {
        s
    }
}

/// The text without the white space around it.
pub open spec fn trim(s: Seq<char>) -> Seq<char> {
    trim_end(trim_start(s))
}

/// The bounds within `chars[from..to]` that trimming leaves.
pub fn trim_bounds(chars: &Vec<char>, from: usize, to: usize) -> (r: (usize, usize))
    requires
        from <= to <= chars@.len(),
    ensures
        from <= r.0 <= r.1 <= to,
        chars@.subrange(r.0 as int, r.1 as int) == trim(chars@.subrange(from as int, to as int)),
{
    let ghost whole = chars@.subrange(from as int, to as int);
    let mut lo: usize = from;
    while lo < to && white(chars[lo])
        invariant
            from <= lo <= to <= chars@.len(),
            trim_start(chars@.subrange(lo as int, to as int)) == trim_start(whole),
        decreases to - lo,
    {
        proof {
            assert(chars@.subrange(lo as int, to as int).drop_first() =~= chars@.subrange(
                lo as int + 1,
                to as int,
            ));
        }
        lo += 1;
    }
    let ghost head = chars@.subrange(lo as int, to as int);
    proof {
        assert(trim_start(whole) == head);
    }
    let mut hi: usize = to;
    while lo < hi && white(chars[hi - 1])
        invariant
            lo <= hi <= to <= chars@.len(),
            trim_end(chars@.subrange(lo as int, hi as int)) == trim_end(head),
        decreases hi - lo,
    {
        proof {
            assert(chars@.subrange(lo as int, hi as int).drop_last() =~= chars@.subrange(
                lo as int,
                hi as int - 1,
            ));
        }
        hi -= 1;
    }
    (lo, hi)
}

/// The decimal digit of `d`.
pub open spec fn digit(d: nat) -> char
    recommends
        d < 10,
{
    (48 + d) as char
}

/// The decimal notation of `n`.
pub open spec fn decimal(n: nat) -> Seq<char>
    decreases n,
{
    if n < 10 {
        seq![digit(n)]
    } else {
        decimal(n / 10).push(digit(n % 10))
    }
}

fn digit_char(d: u64) -> (c: char)
    requires
        d < 10,
    ensures
        c == digit(d as nat),
{
    match d {
        0 => '0',
        1 => '1',
        2 => '2',
        3 => '3',
        4 => '4',
        5 => '5',
        6 => '6',
        7 => '7',
        8 => '8',
        _ => '9',
    }
}

/// Appends the decimal notation of `n`.
pub fn push_decimal(s: &mut String, n: u64)
    ensures
        final(s)@ == old(s)@ + decimal(n as nat),
    decreases n,
{
    if n >= 10 {
        push_decimal(s, n / 10);
    }
    let ghost before = s@;
    s.push(digit_char(n % 10));
    proof {
        if n >= 10 {
            assert(old(s)@ + decimal((n / 10) as nat).push(digit((n % 10) as nat)) =~= (old(s)@
                + decimal((n / 10) as nat)).push(digit((n % 10) as nat)));
        } else {
            assert(s@ =~= old(s)@ + decimal(n as nat));
        }
    }
}

/// A character `0` to `9`.
pub open spec fn is_digit(c: char) -> bool {
    48 <= c as u32 <= 57
}

/// The number that a run of digits denotes.
pub open spec fn digits_value(s: Seq<char>) -> nat
    decreases s.len(),
{
    if s.len() == 0 {
        0
    } else {
        digits_value(s.drop_last()) * 10 + (s.last() as u32 - 48) as nat
    }
}

/// A non-empty run of digits.
pub open spec fn is_digits(s: Seq<char>) -> bool {
    &&& s.len() > 0
    &&& forall|i: int| 0 <= i < s.len() ==> is_digit(#[trigger] s[i])
}

/// The text behind a leading `+`, or the whole text.
pub open spec fn unsigned_part(s: Seq<char>) -> Seq<char> {
    if s.len() > 0 && s[0] == '+' {
        s.drop_first()
    } else {
        s
    }
}

/// What an unsigned integer up to `max` is read from: digits, with at most a
/// `+` before them.
pub open spec fn unsigned_value(s: Seq<char>, max: nat) -> Option<nat> {
    let d = unsigned_part(s);
    if is_digits(d) && digits_value(d) <= max {
        Some(digits_value(d))
    } else {
        None
    }
}

proof fn lemma_digits_value_grows(s: Seq<char>, i: int)
    requires
        0 <= i <= s.len(),
        forall|j: int| 0 <= j < s.len() ==> is_digit(#[trigger] s[j]),
    ensures
        digits_value(s.take(i)) <= digits_value(s),
    decreases s.len() - i,
{
    if i == s.len() {
        assert(s.take(i) =~= s);
    } else {
        lemma_digits_value_grows(s, i + 1);
        assert(s.take(i + 1).drop_last() =~= s.take(i));
    }
}

/// Reads `chars[from..to]` as digits that denote a number up to `max`.
pub fn read_digits(chars: &Vec<char>, from: usize, to: usize, max: u64) -> (r: Option<u64>)
    requires
        from <= to <= chars@.len(),
    ensures
        ({
            let d = chars@.subrange(from as int, to as int);
            match r {
                Some(n) => is_digits(d) && digits_value(d) == n && n <= max,
                None => !(is_digits(d) && digits_value(d) <= max),
            }
        }),
{
    let ghost d = chars@.subrange(from as int, to as int);
    if from == to {
        return None;
    }
    let mut n: u64 = 0;
    let mut i: usize = from;
    while i < to
        invariant
            from <= i <= to <= chars@.len(),
            d == chars@.subrange(from as int, to as int),
            n == digits_value(d.take(i - from)),
            n <= max,
            forall|j: int| 0 <= j < i - from ==> is_digit(#[trigger] d[j]),
        decreases to - i,
    {
        let c: u32 = chars[i] as u32;
        proof {
            assert(d[i - from] == chars@[i as int]);
            assert(d.take(i - from + 1).drop_last() =~= d.take(i - from));
        }
        if c < 48 || c > 57 {
            return None;
        }
        let v: u64 = (c - 48) as u64;
        if v > max || n > max / 10 || n * 10 > max - v {
            proof {
                assert(n * 10 + v > max);
                if is_digits(d) {
                    lemma_digits_value_grows(d, i - from + 1);
                }
            }
            return None;
        }
        n = n * 10 + v;
        i += 1;
    }
    proof {
        assert(d.take(to - from) =~= d);
    }
    Some(n)
}

/// Reads `chars[from..to]` as an unsigned integer up to `max`.
pub fn read_unsigned(chars: &Vec<char>, from: usize, to: usize, max: u64) -> (r: Option<u64>)
    requires
        from <= to <= chars@.len(),
    ensures
        match r {
            Some(n) => unsigned_value(chars@.subrange(from as int, to as int), max as nat) == Some(
                n as nat,
            ),
            None => unsigned_value(chars@.subrange(from as int, to as int), max as nat) is None,
        },
{
    if from < to && chars[from] == '+' {
        proof {
            assert(chars@.subrange(from as int, to as int).drop_first() =~= chars@.subrange(
                from as int + 1,
                to as int,
            ));
        }
        read_digits(chars, from + 1, to, max)
    } else {
        read_digits(chars, from, to, max)
    }
}

/// What a signed integer between `min` and `max` is read from: digits, with at
/// most a `+` or a `-` before them.
pub open spec fn signed_value(s: Seq<char>, min: int, max: nat) -> Option<int> {
    if s.len() > 0 && s[0] == '-' {
        if is_digits(s.drop_first()) && -digits_value(s.drop_first()) >= min {
            Some(-digits_value(s.drop_first()))
        } else {
            None
        }
    } else {
        match unsigned_value(s, max) {
            Some(n) => Some(n as int),
            None => None,
        }
    }
}

/// Reads `s` as a signed integer of 32 bits.
pub fn read_i32(s: &str) -> (r: Option<i32>)
    ensures
        match r {
            Some(n) => signed_value(s@, i32::MIN as int, i32::MAX as nat) == Some(n as int),
            None => signed_value(s@, i32::MIN as int, i32::MAX as nat) is None,
        },
{
    let chars = chars_of(s);
    if chars.len() > 0 && chars[0] == '-' {
        proof {
            assert(chars@.subrange(1, chars@.len() as int) =~= s@.drop_first());
        }
        match read_digits(&chars, 1, chars.len(), 0x8000_0000) {
            Some(n) => Some((-(n as i64)) as i32),
            None => None,
        }
    } else {
        proof {
            assert(chars@.subrange(0, chars@.len() as int) =~= s@);
        }
        match read_unsigned(&chars, 0, chars.len(), 0x7fff_ffff) {
            Some(n) => Some(n as i32),
            None => None,
        }
    }
}

/// Reads `s` as an unsigned integer up to `max`.
pub fn read_number(s: &str, max: u64) -> (r: Option<u64>)
    ensures
        match r {
            Some(n) => unsigned_value(s@, max as nat) == Some(n as nat),
            None => unsigned_value(s@, max as nat) is None,
        },
{
    let chars = chars_of(s);
    proof {
        assert(chars@.subrange(0, chars@.len() as int) =~= s@);
    }
    read_unsigned(&chars, 0, chars.len(), max)
}

/// Whether two strings hold the same characters.
pub fn same_text(a: &str, b: &str) -> (r: bool)
    ensures
        r == (a@ == b@),
{
    let x = chars_of(a);
    let y = chars_of(b);
    if x.len() != y.len() {
        return false;
    }
    let mut i: usize = 0;
    while i < x.len()
        invariant
            i <= x@.len(),
            x@ == a@,
            y@ == b@,
            x@.len() == y@.len(),
            forall|j: int| 0 <= j < i ==> x@[j] == y@[j],
        decreases x@.len() - i,
    {
        if x[i] != y[i] {
            return false;
        }
        i += 1;
    }
    proof {
        assert(x@ =~= y@);
    }
    true
}

/// The text without the white space at its ends.
pub fn trimmed(s: &str) -> (r: String)
    ensures
        r@ == trim(s@),
{
    let chars = chars_of(s);
    let (from, to) = trim_bounds(&chars, 0, chars.len());
    proof {
        assert(chars@.subrange(0, chars@.len() as int) =~= s@);
    }
    string_of(&chars, from, to)
}

/// An optional text as a sequence of characters.
pub open spec fn text_of(s: Option<String>) -> Option<Seq<char>> {
    match s {
        Some(t) => Some(t@),
        None => None,
    }
}

/// Texts as sequences of characters.
pub open spec fn texts_of(v: Seq<String>) -> Seq<Seq<char>> {
    v.map_values(|s: String| s@)
}

/// White space is: tab, line feed, vertical tab, form feed, carriage return, space, next line,
/// the no-break spaces, the spaces of fixed width, the two separators and the ideographic
/// space.
pub proof fn law_white_space(c: char)
    ensures
        is_white(c) <==> {
            ||| c == '\t' || c == '\n' || c == '\u{b}' || c == '\u{c}' || c == '\r'
            ||| c == ' ' || c == '\u{85}' || c == '\u{a0}' || c == '\u{1680}'
            ||| c == '\u{2000}' || c == '\u{2001}' || c == '\u{2002}' || c == '\u{2003}'
            ||| c == '\u{2004}' || c == '\u{2005}' || c == '\u{2006}' || c == '\u{2007}'
            ||| c == '\u{2008}' || c == '\u{2009}' || c == '\u{200a}'
            ||| c == '\u{2028}' || c == '\u{2029}' || c == '\u{202f}' || c == '\u{205f}'
            ||| c == '\u{3000}'
        },
{
}

/// A text with a character that is no white space, at whatever place, is not blank.
pub proof fn law_visible_text_not_blank(before: Seq<char>, c: char, after: Seq<char>)
    requires
        !is_white(c),
    ensures
        !is_blank(before + seq![c] + after),
        trim(before + seq![c] + after).len() > 0,
{
    let s = before + seq![c] + after;
    assert(s[before.len() as int] == c);
    lemma_trim_blank(s);
}

/// A text is blank exactly where trimming leaves nothing of it, and that is where each of its
/// characters is white space.
pub proof fn law_blank_is_trimmed_away(s: Seq<char>)
    ensures
        is_blank(s) <==> trim(s).len() == 0,
        is_blank(s) <==> (forall|i: int| 0 <= i < s.len() ==> is_white(#[trigger] s[i])),
{
    lemma_trim_blank(s);
}

proof fn lemma_trim_start(s: Seq<char>)
    ensures
        trim_start(s).len() == 0 <==> (forall|i: int|
            0 <= i < s.len() ==> is_white(#[trigger] s[i])),
        trim_start(s).len() > 0 ==> !is_white(trim_start(s)[0]),
    decreases s.len(),
{
    if s.len() > 0 && is_white(s[0]) {
        let rest = s.drop_first();
        lemma_trim_start(rest);
        assert(forall|i: int| 0 <= i < rest.len() ==> #[trigger] rest[i] == s[i + 1]);
        if forall|i: int| 0 <= i < rest.len() ==> is_white(#[trigger] rest[i]) {
            assert forall|i: int| 0 <= i < s.len() implies is_white(#[trigger] s[i]) by {
                if i > 0 {
                    assert(rest[i - 1] == s[i]);
                }
            }
        }
        if forall|i: int| 0 <= i < s.len() ==> is_white(#[trigger] s[i]) {
            assert forall|i: int| 0 <= i < rest.len() implies is_white(#[trigger] rest[i]) by {
                assert(rest[i] == s[i + 1]);
            }
        }
    }
}

proof fn lemma_trim_end(s: Seq<char>)
    requires
        s.len() > 0,
        !is_white(s[0]),
    ensures
        trim_end(s).len() > 0,
    decreases s.len(),
{
    if is_white(s.last()) {
        lemma_trim_end(s.drop_last());
    }
}

proof fn lemma_trim_blank(s: Seq<char>)
    ensures
        trim(s).len() == 0 <==> (forall|i: int| 0 <= i < s.len() ==> is_white(#[trigger] s[i])),
{
    lemma_trim_start(s);
    if trim_start(s).len() > 0 {
        lemma_trim_end(trim_start(s));
    }
}

/// Trimming takes the white space off both ends and nothing else: what stands between white
/// space and neither starts nor ends with white space is left as it is.
pub proof fn law_trim_keeps_the_rest(before: Seq<char>, text: Seq<char>, after: Seq<char>)
    requires
        forall|i: int| 0 <= i < before.len() ==> is_white(#[trigger] before[i]),
        forall|i: int| 0 <= i < after.len() ==> is_white(#[trigger] after[i]),
        text.len() > 0 ==> !is_white(text[0]) && !is_white(text.last()),
    ensures
        trim(before + text + after) == text,
{
    lemma_trim_blank(before + text + after);
    if text.len() == 0 {
        assert(forall|i: int|
            0 <= i < (before + text + after).len() ==> is_white(
                #[trigger] (before + text + after)[i],
            ));
        assert(trim(before + text + after) =~= text);
    } else {
        lemma_front_trimmed(before, text + after);
        assert(before + text + after =~= before + (text + after));
        lemma_back_trimmed(text, after);
    }
}

proof fn lemma_front_trimmed(before: Seq<char>, rest: Seq<char>)
    requires
        forall|i: int| 0 <= i < before.len() ==> is_white(#[trigger] before[i]),
        rest.len() > 0,
        !is_white(rest[0]),
    ensures
        trim_start(before + rest) == rest,
    decreases before.len(),
{
    if before.len() == 0 {
        assert(before + rest =~= rest);
    } else {
        let less = before.drop_first();
        assert((before + rest)[0] == before[0]);
        assert((before + rest).drop_first() =~= less + rest);
        lemma_front_trimmed(less, rest);
    }
}

proof fn lemma_back_trimmed(text: Seq<char>, after: Seq<char>)
    requires
        forall|i: int| 0 <= i < after.len() ==> is_white(#[trigger] after[i]),
        text.len() > 0,
        !is_white(text.last()),
    ensures
        trim_end(text + after) == text,
    decreases after.len(),
{
    if after.len() == 0 {
        assert(text + after =~= text);
    } else {
        let less = after.drop_last();
        assert((text + after).last() == after.last());
        assert((text + after).drop_last() =~= text + less);
        lemma_back_trimmed(text, less);
    }
}

/// Digits behind other digits: the ones in front count ten times as much for each digit that
/// follows, and a digit alone counts what it shows.
pub proof fn law_digits_positional(front: Seq<char>, back: Seq<char>, c: char)
    requires
        '0' as u32 <= c as u32 <= '9' as u32,
    ensures
        digits_value(front + back) == digits_value(front) * pow(10, back.len())
            + digits_value(back),
        digits_value(seq![c]) == c as nat - '0' as nat,
        digits_value(Seq::empty()) == 0,
        is_digits(seq![c]),
    decreases back.len(),
{
    reveal(pow);
    assert(seq![c].drop_last() =~= Seq::empty());
    assert(digits_value(seq![c].drop_last()) == 0);
    if back.len() == 0 {
        assert(front + back =~= front);
        assert(digits_value(front) * 1 == digits_value(front));
    } else {
        let less = back.drop_last();
        law_digits_positional(front, less, c);
        assert((front + back).drop_last() =~= front + less);
        assert((front + back).last() == back.last());
        let a = digits_value(front) as int;
        let w = pow(10, less.len());
        assert(pow(10, back.len()) == 10 * w);
        assert((a * w) * 10 == a * (10 * w)) by (nonlinear_arith);
    }
}

/// The decimal notation of a number is read as that number, with a `+` in front as well, and
/// with a `-` in front as the number below zero, unless it is out of bounds.
pub proof fn law_number_read_back(n: nat, min: int, max: nat)
    ensures
        unsigned_value(decimal(n), max) == if n <= max {
            Some(n)
        } else {
            None
        },
        unsigned_value(seq!['+'] + decimal(n), max) == unsigned_value(decimal(n), max),
        signed_value(decimal(n), min, max) == if n <= max {
            Some(n as int)
        } else {
            None
        },
        signed_value(seq!['+'] + decimal(n), min, max) == signed_value(decimal(n), min, max),
        signed_value(seq!['-'] + decimal(n), min, max) == if -n >= min {
            Some(-n)
        } else {
            None
        },
        unsigned_value(seq!['-'] + decimal(n), max) is None,
        is_digits(decimal(n)),
        n > 0 ==> decimal(n)[0] != '0',
{
    lemma_decimal(n);
    let d = decimal(n);
    assert(d[0] != '+' && d[0] != '-');
    assert((seq!['+'] + d).drop_first() =~= d);
    assert((seq!['-'] + d).drop_first() =~= d);
    assert((seq!['+'] + d)[0] == '+');
    assert((seq!['-'] + d)[0] == '-');
}

proof fn lemma_decimal(n: nat)
    ensures
        is_digits(decimal(n)),
        digits_value(decimal(n)) == n,
        n > 0 ==> decimal(n)[0] != '0',
    decreases n,
{
    let d = decimal(n);
    if n < 10 {
        assert(d.drop_last() =~= Seq::empty());
        assert(digits_value(d.drop_last()) == 0);
        assert(digit(n) as nat == 48 + n);
    } else {
        lemma_decimal(n / 10);
        assert(d.drop_last() =~= decimal(n / 10));
        assert(digit(n % 10) as nat == 48 + n % 10);
        assert forall|i: int| 0 <= i < d.len() implies is_digit(#[trigger] d[i]) by {
            if i < d.len() - 1 {
                assert(d[i] == decimal(n / 10)[i]);
            }
        }
        assert(d[0] == decimal(n / 10)[0]);
    }
}

/// Nothing is read from a text without a digit, or with a character other than a digit behind
/// its first one, and zeros in front change nothing.
pub proof fn law_no_number_no_value(s: Seq<char>, i: int, min: int, max: nat)
    ensures
        0 < i < s.len() && !('0' as u32 <= s[i] as u32 <= '9' as u32) ==> {
            &&& unsigned_value(s, max) is None
            &&& signed_value(s, min, max) is None
        },
        s.len() == 0 ==> unsigned_value(s, max) is None && signed_value(s, min, max) is None,
        s == seq!['+'] || s == seq!['-'] ==> unsigned_value(s, max) is None && signed_value(
            s,
            min,
            max,
        ) is None,
        is_digits(s) ==> unsigned_value(seq!['0'] + s, max) == unsigned_value(s, max),
{
    if 0 < i < s.len() && !('0' as u32 <= s[i] as u32 <= '9' as u32) {
        assert(s.drop_first()[i - 1] == s[i]);
        assert(!is_digit(s[i]));
    }
    if is_digits(s) {
        let z = seq!['0'] + s;
        law_digits_positional(seq!['0'], s, '0');
        assert(digits_value(seq!['0']) == 0);
        assert(0 * pow(10, s.len()) == 0) by (nonlinear_arith);
        assert(s[0] != '+');
        assert forall|k: int| 0 <= k < z.len() implies is_digit(#[trigger] z[k]) by {
            if k > 0 {
                assert(z[k] == s[k - 1]);
            }
        }
    }
}

/// Texts are seen as their characters, each at its own place.
pub proof fn law_texts_seen(v: Seq<String>, s: Option<String>, i: int)
    ensures
        texts_of(v).len() == v.len(),
        0 <= i < v.len() ==> texts_of(v)[i] == v[i]@,
        text_of(s) is Some <==> s is Some,
        s is Some ==> text_of(s) == Some(s->0@),
{
}

} // verus!
