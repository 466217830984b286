//! The memory of the process, from the text of its status file.
use crate::text::{
    chars_of, decimal, is_digit, is_digits, is_white, law_number_read_back,
    law_trim_keeps_the_rest, read_unsigned, trim, trim_bounds, unsigned_value,
};
use vstd::prelude::*;

verus! {

/// The memory that the process uses.
#[derive(Debug, Clone, Copy, PartialEq, Eq, Structural)]
pub struct MemoryInfo {
    /// The resident memory in kB.
    pub rss_kb: u64,
    /// The virtual memory in kB.
    pub vsize_kb: u64,
}

/// The text ends in ` kB`.
pub open spec fn ends_in_kb(s: Seq<char>) -> bool {
    s.len() >= 3 && s[s.len() - 3] == ' ' && s[s.len() - 2] == 'k' && s[s.len() - 1] == 'B'
}

/// The text without each ` kB` at its end.
pub open spec fn without_kb(s: Seq<char>) -> Seq<char>
    decreases s.len(),
{
    if ends_in_kb(s) {
        without_kb(s.take(s.len() - 3))
    } else {
        s
    }
}

/// The number in a text such as `12345 kB`.
pub open spec fn kb_value(s: Seq<char>) -> Option<nat> {
    unsigned_value(without_kb(trim(s)), u64::MAX as nat)
}

/// The number in `chars[from..to]`.
fn read_kb(chars: &Vec<char>, from: usize, to: usize) -> (r: Option<u64>)
    requires
        from <= to <= chars@.len(),
    ensures
        match r {
            Some(n) => kb_value(chars@.subrange(from as int, to as int)) == Some(n as nat),
            None => kb_value(chars@.subrange(from as int, to as int)) is None,
        },
{
    let (lo, hi) = trim_bounds(chars, from, to);
    let ghost inner = chars@.subrange(lo as int, hi as int);
    let mut end: usize = hi;
    while end - lo >= 3 && chars[end - 3] == ' ' && chars[end - 2] == 'k' && chars[end - 1] == 'B'
        invariant
            lo <= end <= hi <= chars@.len(),
            inner == chars@.subrange(lo as int, hi as int),
            without_kb(chars@.subrange(lo as int, end as int)) == without_kb(inner),
        decreases end,
    {
        proof {
            let now = chars@.subrange(lo as int, end as int);
            assert(ends_in_kb(now));
            assert(now.take(now.len() - 3) =~= chars@.subrange(lo as int, end - 3));
        }
        end -= 3;
    }
    proof {
        let now = chars@.subrange(lo as int, end as int);
        assert(!ends_in_kb(now)) by {
            if now.len() >= 3 {
                assert(now[now.len() - 3] == chars@[end - 3]);
                assert(now[now.len() - 2] == chars@[end - 2]);
                assert(now[now.len() - 1] == chars@[end - 1]);
            }
        }
    }
    read_unsigned(chars, lo, end, u64::MAX)
}

/// The number in a text such as `12345 kB`.
pub fn parse_kb(s: &str) -> (r: Option<u64>)
    ensures
        match r {
            Some(n) => kb_value(s@) == Some(n as nat),
            None => kb_value(s@) is None,
        },
{
    let chars = chars_of(s);
    proof {
        assert(chars@.subrange(0, chars@.len() as int) =~= s@);
    }
    read_kb(&chars, 0, chars.len())
}

/// Where the line that starts at `from` ends.
pub open spec fn line_end(s: Seq<char>, from: int) -> int
    decreases s.len() - from,
{
    if 0 <= from < s.len() && s[from] != '\n' {
        line_end(s, from + 1)
    } else {
        from
    }
}

/// Where the line after the one that ends at `end` starts.
pub open spec fn past(s: Seq<char>, end: int) -> int {
    if end < s.len() {
        end + 1
    } else {
        end
    }
}

/// The lines of the text from `from` on.
pub open spec fn lines(s: Seq<char>, from: int) -> Seq<Seq<char>>
    decreases s.len() - from,
{
    if 0 <= from < s.len() {
        let end = line_end(s, from);
        if from <= end <= s.len() {
            seq![s.subrange(from, end)] + lines(s, past(s, end))
        } else {
            Seq::empty()
        }
    } else {
        Seq::empty()
    }
}

/// The line starts with the name of the field.
pub open spec fn is_field(line: Seq<char>, name: Seq<char>) -> bool {
    line.len() >= name.len() && line.take(name.len() as int) == name
}

/// The number of kB in the last line that starts with the name of the field.
pub open spec fn field(lines: Seq<Seq<char>>, name: Seq<char>) -> Option<nat>
    decreases lines.len(),
{
    if lines.len() == 0 {
        None
    } else if is_field(lines.last(), name) {
        kb_value(lines.last().skip(name.len() as int))
    } else {
        field(lines.drop_last(), name)
    }
}

/// Whether `chars[from..to]` starts with the name.
fn starts_with(chars: &Vec<char>, from: usize, to: usize, name: &Vec<char>) -> (r: bool)
    requires
        from <= to <= chars@.len(),
    ensures
        r == is_field(chars@.subrange(from as int, to as int), name@),
{
    let ghost line = chars@.subrange(from as int, to as int);
    if to - from < name.len() {
        return false;
    }
    let mut i: usize = 0;
    while i < name.len()
        invariant
            i <= name@.len(),
            from <= to <= chars@.len(),
            name@.len() <= to - from,
            line == chars@.subrange(from as int, to as int),
            forall|j: int| 0 <= j < i ==> line[j] == name@[j],
        decreases name@.len() - i,
    {
        if chars[from + i] != name[i] {
            assert(line.take(name@.len() as int)[i as int] != name@[i as int]);
            return false;
        }
        i += 1;
    }
    proof {
        assert(line.take(name@.len() as int) =~= name@);
    }
    true
}

/// The memory of the process, from the text of its status file: both fields have to be
/// there.
pub fn memory_info(status: &str) -> (r: Option<MemoryInfo>)
    ensures
        match r {
            Some(m) => {
                &&& field(lines(status@, 0), "VmRSS:"@) == Some(m.rss_kb as nat)
                &&& field(lines(status@, 0), "VmSize:"@) == Some(m.vsize_kb as nat)
            },
            None => {
                ||| field(lines(status@, 0), "VmRSS:"@) is None
                ||| field(lines(status@, 0), "VmSize:"@) is None
            },
        },
{
    let chars = chars_of(status);
    let rss_name = chars_of("VmRSS:");
    let vsize_name = chars_of("VmSize:");
    let mut rss: Option<u64> = None;
    let mut vsize: Option<u64> = None;
    let mut at: usize = 0;
    let ghost all = lines(status@, 0);
    let ghost mut seen: Seq<Seq<char>> = Seq::empty();
    proof {
        assert(seen + lines(status@, 0) =~= all);
    }
    while at < chars.len()
        invariant
            at <= chars@.len(),
            chars@ == status@,
            rss_name@ == "VmRSS:"@,
            vsize_name@ == "VmSize:"@,
            all == seen + lines(status@, at as int),
            same_number(rss, field(seen, "VmRSS:"@)),
            same_number(vsize, field(seen, "VmSize:"@)),
        decreases chars@.len() - at,
    {
        let mut end: usize = at;
        while end < chars.len() && chars[end] != '\n'
            invariant
                at <= end <= chars@.len(),
                chars@ == status@,
                line_end(status@, at as int) == line_end(status@, end as int),
            decreases chars@.len() - end,
        {
            end += 1;
        }
        let ghost line = status@.subrange(at as int, end as int);
        let ghost before = seen;
        proof {
            assert(line_end(status@, end as int) == end);
            seen = seen.push(line);
            assert(lines(status@, at as int) =~= seq![line] + lines(
                status@,
                past(status@, end as int),
            ));
            assert(seen.drop_last() =~= before);
            assert(all =~= seen + lines(status@, past(status@, end as int)));
            lemma_fields_differ(line);
        }
        if starts_with(&chars, at, end, &rss_name) {
            proof {
                assert(line.skip(rss_name@.len() as int) =~= chars@.subrange(
                    at + rss_name@.len(),
                    end as int,
                ));
            }
            rss = read_kb(&chars, at + rss_name.len(), end);
        } else if starts_with(&chars, at, end, &vsize_name) {
            proof {
                assert(line.skip(vsize_name@.len() as int) =~= chars@.subrange(
                    at + vsize_name@.len(),
                    end as int,
                ));
            }
            vsize = read_kb(&chars, at + vsize_name.len(), end);
        }
        if end < chars.len() {
            at = end + 1;
        } else {
            at = end;
        }
    }
    proof {
        assert(lines(status@, at as int) =~= Seq::empty());
        assert(all =~= seen);
    }
    match (rss, vsize) {
        (Some(rss_kb), Some(vsize_kb)) => Some(MemoryInfo { rss_kb, vsize_kb }),
        _ => None,
    }
}

/// The same number, or none in both.
spec fn same_number(a: Option<u64>, b: Option<nat>) -> bool {
    match (a, b) {
        (Some(x), Some(y)) => x == y,
        (None, None) => true,
        _ => false,
    }
}

/// No line has both names.
proof fn lemma_fields_differ(line: Seq<char>)
    ensures
        !(is_field(line, "VmRSS:"@) && is_field(line, "VmSize:"@)),
{
    reveal_strlit("VmRSS:");
    reveal_strlit("VmSize:");
    if is_field(line, "VmRSS:"@) && is_field(line, "VmSize:"@) {
        assert(line.take(6)[2] == "VmRSS:"@[2]);
        assert(line.take(7)[2] == "VmSize:"@[2]);
    }
}

/// The number is read from its decimal notation, whatever white space stands around it and
/// whether ` kB` follows it.
pub proof fn law_kb_read(before: Seq<char>, n: nat, after: Seq<char>)
    requires
        n <= u64::MAX,
        forall|i: int| 0 <= i < before.len() ==> is_white(#[trigger] before[i]),
        forall|i: int| 0 <= i < after.len() ==> is_white(#[trigger] after[i]),
    ensures
        kb_value(before + decimal(n) + after) == Some(n),
        kb_value(before + (decimal(n) + seq![' ', 'k', 'B']) + after) == Some(n),
{
    let d = decimal(n);
    law_number_read_back(n, 0, u64::MAX as nat);
    assert(is_digits(d));
    let text = d + seq![' ', 'k', 'B'];
    assert(is_digit(d[0]) && is_digit(d.last()));
    assert(text[0] == d[0] && text.last() == 'B');
    law_trim_keeps_the_rest(before, d, after);
    law_trim_keeps_the_rest(before, text, after);
    assert(!ends_in_kb(d));
    assert(ends_in_kb(text));
    assert(text.take(text.len() - 3) =~= d);
}

/// The lines of a text that is made of a line, a line feed and a rest are that line and the lines
/// of the rest; a text without a line feed is one line, and an empty one has none.
pub proof fn law_lines(line: Seq<char>, rest: Seq<char>)
    requires
        !line.contains('\n'),
    ensures
        lines(line + seq!['\n'] + rest, 0) == seq![line] + lines(rest, 0),
        line.len() > 0 ==> lines(line, 0) == seq![line],
        lines(Seq::empty(), 0) == Seq::<Seq<char>>::empty(),
{
    let s = line + seq!['\n'] + rest;
    lemma_line_end(s, line, 0);
    lemma_line_end(line, line, 0);
    assert(s.subrange(0, line.len() as int) =~= line);
    assert(line.subrange(0, line.len() as int) =~= line);
    lemma_lines_shift(line + seq!['\n'], rest, 0);
    assert(lines(line, line.len() as int) =~= Seq::empty());
    if line.len() > 0 {
        assert(lines(line, 0) =~= seq![line]);
    }
}

proof fn lemma_line_end(s: Seq<char>, line: Seq<char>, from: int)
    requires
        !line.contains('\n'),
        0 <= from <= line.len() <= s.len(),
        forall|i: int| 0 <= i < line.len() ==> s[i] == line[i],
        line.len() < s.len() ==> s[line.len() as int] == '\n',
    ensures
        line_end(s, from) == line.len(),
    decreases line.len() - from,
{
    if from < line.len() {
        assert(line.contains(line[from]));
        lemma_line_end(s, line, from + 1);
    }
}

proof fn lemma_lines_shift(front: Seq<char>, rest: Seq<char>, from: int)
    requires
        0 <= from <= rest.len(),
    ensures
        lines(front + rest, front.len() + from) == lines(rest, from),
    decreases rest.len() - from,
{
    let s = front + rest;
    if from < rest.len() {
        lemma_end_shift(front, rest, from);
        let end = line_end(rest, from);
        assert(s.subrange(front.len() + from, front.len() + end) =~= rest.subrange(from, end));
        if from <= end <= rest.len() && past(rest, end) > from {
            lemma_lines_shift(front, rest, past(rest, end));
        }
    } else {
        assert(lines(s, front.len() + from) =~= lines(rest, from));
    }
}

proof fn lemma_end_shift(front: Seq<char>, rest: Seq<char>, from: int)
    requires
        0 <= from <= rest.len(),
    ensures
        line_end(front + rest, front.len() + from) == front.len() + line_end(rest, from),
        from <= line_end(rest, from) <= rest.len(),
    decreases rest.len() - from,
{
    if from < rest.len() && rest[from] != '\n' {
        lemma_end_shift(front, rest, from + 1);
    }
}

/// A field is what the last line with its name says behind the name; lines with other beginnings
/// do not matter.
pub proof fn law_field_read(
    before: Seq<Seq<char>>,
    name: Seq<char>,
    text: Seq<char>,
    other: Seq<char>,
)
    ensures
        field(before.push(name + text), name) == kb_value(text),
        !(other.len() >= name.len() && other.take(name.len() as int) == name) ==> field(
            before.push(other),
            name,
        ) == field(before, name),
        field(Seq::empty(), name) is None,
{
    let line = name + text;
    assert(line.take(name.len() as int) =~= name);
    assert(line.skip(name.len() as int) =~= text);
    assert(before.push(line).last() == line);
    assert(before.push(other).drop_last() =~= before);
}

/// One ` kB` at the end counts as none, and so do several; what does not end so is left as it is.
pub proof fn law_kb_suffix(s: Seq<char>)
    ensures
        without_kb(s + seq![' ', 'k', 'B']) == without_kb(s),
        !(s.len() >= 3 && s.skip(s.len() - 3) == seq![' ', 'k', 'B']) ==> without_kb(s) == s,
{
    let t = s + seq![' ', 'k', 'B'];
    assert(ends_in_kb(t));
    assert(t.take(t.len() - 3) =~= s);
    if ends_in_kb(s) {
        assert(s.skip(s.len() - 3) =~= seq![' ', 'k', 'B']);
    }
}

} // verus!
