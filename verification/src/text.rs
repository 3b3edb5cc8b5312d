//! Character classes and the scanning primitives that every other module is
//! built from. Text is modelled as `Seq<char>`; executable code scans a
//! `Vec<char>` window by index.

use vstd::prelude::*;
use vstd::std_specs::iter::IteratorSpec;

verus! {

/// `String::push` of the standard library, which appends the given
/// character to the end of the string: afterwards the string reads as
/// before, with `ch` behind it.
pub assume_specification[ String::push ](s: &mut String, ch: char)
    ensures
        final(s)@ == old(s)@.push(ch),
;

/// The characters with the Unicode property `White_Space`.
pub open spec fn is_whitespace(c: char) -> bool {
    let u = c as u32;
    ||| 0x09 <= u <= 0x0D
    ||| u == 0x20
    ||| u == 0x85
    ||| u == 0xA0
    ||| u == 0x1680
    ||| 0x2000 <= u <= 0x200A
    ||| u == 0x2028
    ||| u == 0x2029
    ||| u == 0x202F
    ||| u == 0x205F
    ||| u == 0x3000
}

/// The glyphs a tree drawing indents with: vertical bar, corner, branch,
/// horizontal bar, and the plain space.
pub open spec fn is_connector(c: char) -> bool {
    c == '│' || c == '└' || c == '├' || c == '─' || c == ' '
}

/// The characters no entry name may contain.
pub open spec fn is_forbidden(c: char) -> bool {
    c == '<' || c == '>' || c == ':' || c == '"' || c == '|' || c == '?' || c == '*'
}

/// A set of characters that a scan can test membership in.
#[derive(Clone, Copy, Debug, PartialEq, Eq)]
pub enum CharClass {
    Whitespace,
    Connector,
    Forbidden,
    /// The one given character.
    Exactly(char),
    /// Every character but the given one.
    Except(char),
}

impl CharClass {
    /// Whether `c` belongs to the class.
    pub open spec fn has(self, c: char) -> bool {
        match self {
            CharClass::Whitespace => is_whitespace(c),
            CharClass::Connector => is_connector(c),
            CharClass::Forbidden => is_forbidden(c),
            CharClass::Exactly(x) => c == x,
            CharClass::Except(x) => c != x,
        }
    }

    /// Tells whether `c` belongs to the class.
    pub fn contains(&self, c: char) -> (b: bool)
        ensures
            b == self.has(c),
    {
        match self {
            CharClass::Whitespace => {
                let u: u32 = c as u32;
                (0x09 <= u && u <= 0x0D) || u == 0x20 || u == 0x85 || u == 0xA0 || u == 0x1680 || (
                0x2000 <= u && u <= 0x200A) || u == 0x2028 || u == 0x2029 || u == 0x202F || u
                    == 0x205F || u == 0x3000
            },
            CharClass::Connector => c == '│' || c == '└' || c == '├' || c == '─' || c == ' ',
            CharClass::Forbidden => c == '<' || c == '>' || c == ':' || c == '"' || c == '|' || c
                == '?' || c == '*',
            CharClass::Exactly(x) => c == *x,
            CharClass::Except(x) => c != *x,
        }
    }
}

/// How many characters at the front of `s` belong to `class`.
pub open spec fn leading(s: Seq<char>, class: CharClass) -> nat
    decreases s.len(),
{
    if s.len() > 0 && class.has(s[0]) {
        1 + leading(s.drop_first(), class)
    } else {
        0
    }
}

/// The length `s` keeps once the members of `class` at its end are dropped.
pub open spec fn trimmed_len(s: Seq<char>, class: CharClass) -> nat
    decreases s.len(),
{
    if s.len() > 0 && class.has(s.last()) {
        trimmed_len(s.drop_last(), class)
    } else {
        s.len()
    }
}

/// Every character of `s` belongs to `class`.
pub open spec fn all_in(s: Seq<char>, class: CharClass) -> bool {
    forall|i: int| 0 <= i < s.len() ==> class.has(#[trigger] s[i])
}

/// Some character of `s` belongs to `class`.
pub open spec fn any_in(s: Seq<char>, class: CharClass) -> bool {
    exists|i: int| 0 <= i < s.len() && class.has(#[trigger] s[i])
}

/// `s` without the whitespace at its end.
pub open spec fn trim_end(s: Seq<char>) -> Seq<char> {
    s.take(trimmed_len(s, CharClass::Whitespace) as int)
}

/// `s` without the whitespace at its front.
pub open spec fn trim_start(s: Seq<char>) -> Seq<char> {
    s.skip(leading(s, CharClass::Whitespace) as int)
}

/// `s` without the whitespace at either end.
pub open spec fn trim(s: Seq<char>) -> Seq<char> {
    trim_end(trim_start(s))
}

/// `leading` stops at the first character outside the class, and not before.
pub proof fn lemma_leading(s: Seq<char>, class: CharClass)
    ensures
        leading(s, class) <= s.len(),
        forall|i: int| 0 <= i < leading(s, class) ==> class.has(#[trigger] s[i]),
        leading(s, class) < s.len() ==> !class.has(s[leading(s, class) as int]),
        leading(s, class) == s.len() <==> all_in(s, class),
    decreases s.len(),
{
    if s.len() > 0 && class.has(s[0]) {
        let rest = s.drop_first();
        lemma_leading(rest, class);
        assert forall|i: int| 0 <= i < leading(s, class) implies class.has(#[trigger] s[i]) by {
            if i > 0 {
                assert(s[i] == rest[i - 1]);
            }
        }
        if all_in(rest, class) {
            assert forall|i: int| 0 <= i < s.len() implies class.has(#[trigger] s[i]) by {
                if i > 0 {
                    assert(s[i] == rest[i - 1]);
                }
            }
        }
        if all_in(s, class) {
            assert forall|i: int| 0 <= i < rest.len() implies class.has(#[trigger] rest[i]) by {
                assert(rest[i] == s[i + 1]);
            }
        }
    }
}

/// `trimmed_len` stops behind the last character outside the class.
pub proof fn lemma_trimmed_len(s: Seq<char>, class: CharClass)
    ensures
        trimmed_len(s, class) <= s.len(),
        forall|i: int| trimmed_len(s, class) <= i < s.len() ==> class.has(#[trigger] s[i]),
        trimmed_len(s, class) > 0 ==> !class.has(s[trimmed_len(s, class) - 1]),
        trimmed_len(s, class) == 0 <==> all_in(s, class),
    decreases s.len(),
{
    if s.len() > 0 && class.has(s.last()) {
        let rest = s.drop_last();
        lemma_trimmed_len(rest, class);
        assert forall|i: int| trimmed_len(s, class) <= i < s.len() implies class.has(
            #[trigger] s[i],
        ) by {
            if i < rest.len() {
                assert(s[i] == rest[i]);
            }
        }
        if all_in(rest, class) {
            assert forall|i: int| 0 <= i < s.len() implies class.has(#[trigger] s[i]) by {
                if i < rest.len() {
                    assert(s[i] == rest[i]);
                }
            }
        }
        if all_in(s, class) {
            assert forall|i: int| 0 <= i < rest.len() implies class.has(#[trigger] rest[i]) by {
                assert(rest[i] == s[i]);
            }
        }
    } else if s.len() > 0 {
        assert(!class.has(s[s.len() - 1]));
    }
}

/// The views of the strings of `v`.
pub open spec fn texts(v: Seq<String>) -> Seq<Seq<char>> {
    v.map_values(|s: String| s@)
}

/// The characters of `s`, in order.
pub fn to_chars(s: &str) -> (v: Vec<char>)
    ensures
        v@ == s@,
{
    let mut v: Vec<char> = Vec::new();
    for c in it: s.chars()
        invariant
            v@ == it.seq().take(it.index() as int),
            it.seq() == s@,
    {
        v.push(c);
    }
    v
}

/// The string made of `v[from..to]`.
pub fn from_chars(v: &Vec<char>, from: usize, to: usize) -> (s: String)
    requires
        from <= to <= v@.len(),
    ensures
        s@ == v@.subrange(from as int, to as int),
{
    let mut s = String::new();
    let mut i: usize = from;
    while i < to
        invariant
            from <= i <= to <= v@.len(),
            s@ == v@.subrange(from as int, i as int),
        decreases to - i,
    {
        s.push(v[i]);
        i += 1;
    }
    s
}

/// Counts the members of `class` at the front of the window `v[from..to]`.
pub fn count_leading(v: &Vec<char>, from: usize, to: usize, class: CharClass) -> (n: usize)
    requires
        from <= to <= v@.len(),
    ensures
        n == leading(v@.subrange(from as int, to as int), class),
        from + n <= to,
{
    let ghost w = v@.subrange(from as int, to as int);
    let mut i: usize = from;
    assert(w.skip(0) =~= w);
    while i < to && class.contains(v[i])
        invariant
            from <= i <= to <= v@.len(),
            w == v@.subrange(from as int, to as int),
            leading(w, class) == (i - from) + leading(w.skip(i - from), class),
        decreases to - i,
    {
        proof {
            let r = w.skip(i - from);
            assert(r[0] == v@[i as int]);
            assert(r.drop_first() =~= w.skip(i - from + 1));
        }
        i += 1;
    }
    proof {
        let r = w.skip(i - from);
        if i < to {
            assert(r[0] == v@[i as int]);
        }
    }
    i - from
}

/// Finds where the window `v[from..to]` ends once the members of `class` at
/// its end are dropped.
pub fn trimmed_end(v: &Vec<char>, from: usize, to: usize, class: CharClass) -> (end: usize)
    requires
        from <= to <= v@.len(),
    ensures
        from <= end <= to,
        end - from == trimmed_len(v@.subrange(from as int, to as int), class),
{
    let ghost w = v@.subrange(from as int, to as int);
    let mut end: usize = to;
    assert(w.take(to - from) =~= w);
    while end > from && class.contains(v[end - 1])
        invariant
            from <= end <= to <= v@.len(),
            w == v@.subrange(from as int, to as int),
            trimmed_len(w, class) == trimmed_len(w.take(end - from), class),
        decreases end - from,
    {
        proof {
            let r = w.take(end - from);
            assert(r.last() == v@[end - 1]);
            assert(r.drop_last() =~= w.take(end - from - 1));
        }
        end -= 1;
    }
    proof {
        let r = w.take(end - from);
        if end > from {
            assert(r.last() == v@[end - 1]);
        }
    }
    end
}

/// Tells whether the window `v[from..to]` holds a member of `class`.
pub fn contains_any(v: &Vec<char>, from: usize, to: usize, class: CharClass) -> (found: bool)
    requires
        from <= to <= v@.len(),
    ensures
        found == any_in(v@.subrange(from as int, to as int), class),
{
    let ghost w = v@.subrange(from as int, to as int);
    let mut i: usize = from;
    while i < to
        invariant
            from <= i <= to <= v@.len(),
            w == v@.subrange(from as int, to as int),
            forall|k: int| 0 <= k < i - from ==> !class.has(#[trigger] w[k]),
        decreases to - i,
    {
        if class.contains(v[i]) {
            assert(class.has(w[i - from]));
            return true;
        }
        i += 1;
    }
    false
}

/// `line` without the carriage return at its end, if it has one.
pub open spec fn without_cr(line: Seq<char>) -> Seq<char> {
    if line.len() > 0 && line.last() == '\r' {
        line.drop_last()
    } else {
        line
    }
}

/// The lines of a text. A line ends with a line feed, or with the text; the
/// line feed is not part of the line, nor is a carriage return in front of
/// it. A text that ends with a line feed has no further, empty line.
pub open spec fn lines_of(text: Seq<char>) -> Seq<Seq<char>>
    decreases text.len(),
{
    let stop = leading(text, CharClass::Except('\n'));
    if text.len() == 0 {
        Seq::empty()
    } else if stop >= text.len() {
        seq![text]
    } else {
        seq![without_cr(text.take(stop as int))] + lines_of(text.skip(stop as int + 1))
    }
}

/// Splits a text into its lines.
pub fn split_lines(text: &str) -> (lines: Vec<String>)
    ensures
        texts(lines@) == lines_of(text@),
{
    let chars = to_chars(text);
    let n: usize = chars.len();
    let mut lines: Vec<String> = Vec::new();
    let mut start: usize = 0;
    assert(chars@.subrange(0, n as int) =~= text@);
    assert(texts(lines@) =~= Seq::<Seq<char>>::empty());
    while start < n
        invariant
            start <= n == chars@.len(),
            lines_of(text@) == texts(lines@) + lines_of(
                chars@.subrange(start as int, n as int),
            ),
        decreases n - start,
    {
        let ghost rest = chars@.subrange(start as int, n as int);
        let ghost done = texts(lines@);
        let stop: usize = start + count_leading(&chars, start, n, CharClass::Except('\n'));
        if stop == n {
            let line = from_chars(&chars, start, n);
            lines.push(line);
            start = n;
            proof {
                assert(texts(lines@) =~= done.push(rest));
                assert(lines_of(chars@.subrange(n as int, n as int)) =~= Seq::<Seq<char>>::empty());
                assert(done + seq![rest] =~= done.push(rest) + Seq::<Seq<char>>::empty());
            }
        } else {
            let end: usize = if stop > start && chars[stop - 1] == '\r' {
                (stop - 1) as usize
            } else {
                stop
            };
            let line = from_chars(&chars, start, end);
            lines.push(line);
            proof {
                let first = rest.take(stop - start);
                assert(first =~= chars@.subrange(start as int, stop as int));
                assert(without_cr(first) =~= chars@.subrange(start as int, end as int));
                assert(rest.skip(stop - start + 1) =~= chars@.subrange(stop + 1, n as int));
                assert(texts(lines@) =~= done.push(without_cr(first)));
                assert(done + (seq![without_cr(first)] + lines_of(
                    chars@.subrange(stop + 1, n as int),
                )) =~= done.push(without_cr(first)) + lines_of(chars@.subrange(stop + 1, n as int)));
            }
            start = stop + 1;
        }
    }
    assert(lines_of(chars@.subrange(n as int, n as int)) =~= Seq::<Seq<char>>::empty());
    assert(texts(lines@) + Seq::<Seq<char>>::empty() =~= texts(lines@));
    lines
}

/// The character for one decimal digit.
pub open spec fn digit(d: nat) -> char {
    if d == 0 {
        '0'
    } else if d == 1 {
        '1'
    } else if d == 2 {
        '2'
    } else if d == 3 {
        '3'
    } else if d == 4 {
        '4'
    } else if d == 5 {
        '5'
    } else if d == 6 {
        '6'
    } else if d == 7 {
        '7'
    } else if d == 8 {
        '8'
    } else {
        '9'
    }
}

/// `n` written in decimal digits, without leading zeros.
pub open spec fn decimal(n: nat) -> Seq<char>
    decreases n,
{
    if n < 10 {
        seq![digit(n)]
    } else {
        decimal(n / 10).push(digit(n % 10))
    }
}

/// The character for the digit `d`.
fn digit_char(d: usize) -> (c: char)
    requires
        d < 10,
    ensures
        c == digit(d as nat),
{
    if d == 0 {
        '0'
    } else if d == 1 {
        '1'
    } else if d == 2 {
        '2'
    } else if d == 3 {
        '3'
    } else if d == 4 {
        '4'
    } else if d == 5 {
        '5'
    } else if d == 6 {
        '6'
    } else if d == 7 {
        '7'
    } else if d == 8 {
        '8'
    } else {
        '9'
    }
}

/// Writes `n` in decimal digits.
pub fn format_decimal(n: usize) -> (s: String)
    ensures
        s@ == decimal(n as nat),
{
    let mut backwards: Vec<char> = Vec::new();
    let mut m: usize = n;
    assert(decimal(n as nat) =~= decimal(m as nat) + backwards@.reverse());
    while m >= 10
        invariant
            decimal(n as nat) == decimal(m as nat) + backwards@.reverse(),
        decreases m,
    {
        let ghost before = backwards@;
        backwards.push(digit_char(m % 10));
        proof {
            assert(backwards@.reverse() =~= seq![digit((m % 10) as nat)] + before.reverse());
            assert(decimal(m as nat) + before.reverse() =~= decimal((m / 10) as nat)
                + backwards@.reverse());
        }
        m = m / 10;
    }
    let ghost before = backwards@;
    backwards.push(digit_char(m));
    assert(backwards@.reverse() =~= decimal(n as nat)) by {
        assert(backwards@.reverse() =~= seq![digit(m as nat)] + before.reverse());
    }
    let mut s = String::new();
    let mut k: usize = backwards.len();
    let ghost goal = backwards@.reverse();
    assert(s@ =~= goal.take(0));
    while k > 0
        invariant
            k <= backwards@.len(),
            goal == backwards@.reverse(),
            s@ == goal.take(backwards@.len() - k),
        decreases k,
    {
        k -= 1;
        s.push(backwards[k]);
        assert(s@ =~= goal.take(backwards@.len() - k));
    }
    assert(goal.take(backwards@.len() as int) =~= goal);
    s
}

} // verus!
