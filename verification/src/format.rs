//! The ledger as text: one entry per line, the digest, one blank, the path.
//!
//! Reading trims each line of white space and splits it at its first blank;
//! a line without a blank holds no entry. Writing puts a line break between
//! two entries and none after the last.

use crate::text::{chars_of, string_of};
use vstd::prelude::*;

verus! {

/// One entry as text: a path as it was written, and its digest.
#[verifier::ext_equal]
pub struct Record {
    pub path: Seq<char>,
    pub digest: Seq<char>,
}

/// White space: the characters that Unicode gives the property `White_Space`.
pub open spec fn is_space(c: char) -> bool {
    let n = c as u32;
    ||| 0x09 <= n <= 0x0D
    ||| n == 0x20
    ||| n == 0x85
    ||| n == 0xA0
    ||| n == 0x1680
    ||| 0x2000 <= n <= 0x200A
    ||| n == 0x2028
    ||| n == 0x2029
    ||| n == 0x202F
    ||| n == 0x205F
    ||| n == 0x3000
}

/// The test for white space.
pub open spec fn space() -> spec_fn(char) -> bool {
    |c: char| is_space(c)
}

/// The test for any character but `stop`.
pub open spec fn is_not(stop: char) -> spec_fn(char) -> bool {
    |c: char| c != stop
}

/// How many characters at the start of `s` pass the test `p`.
pub open spec fn lead(s: Seq<char>, p: spec_fn(char) -> bool) -> nat
    decreases s.len(),
{
    if s.len() > 0 && p(s[0]) {
        1 + lead(s.drop_first(), p)
    } else {
        0
    }
}

/// How many characters at the end of `s` pass the test `p`.
pub open spec fn trail(s: Seq<char>, p: spec_fn(char) -> bool) -> nat
    decreases s.len(),
{
    if s.len() > 0 && p(s.last()) {
        1 + trail(s.drop_last(), p)
    } else {
        0
    }
}

/// `s` without the white space at its start and at its end.
pub open spec fn trim(s: Seq<char>) -> Seq<char> {
    let rest = s.skip(lead(s, space()) as int);
    rest.take(rest.len() - trail(rest, space()))
}

/// The entry that a line holds, if it holds one.
pub open spec fn parse_line(line: Seq<char>) -> Option<Record> {
    let t = trim(line);
    let n = lead(t, is_not(' ')) as int;
    if n < t.len() {
        Some(Record { digest: t.take(n), path: t.skip(n + 1) })
    } else {
        None
    }
}

/// The entries that a text holds, line by line.
pub open spec fn parse(text: Seq<char>) -> Seq<Record>
    decreases text.len(),
{
    let n = lead(text, is_not('\n')) as int;
    let first = match parse_line(text.take(n)) {
        Some(r) => seq![r],
        None => Seq::empty(),
    };
    if n < text.len() {
        first + parse(text.skip(n + 1))
    } else {
        first
    }
}

/// The line that holds `r`.
pub open spec fn line_of(r: Record) -> Seq<char> {
    r.digest + seq![' '] + r.path
}

/// The text that holds the given entries, in their order.
pub open spec fn render(rs: Seq<Record>) -> Seq<char>
    decreases rs.len(),
{
    if rs.len() == 0 {
        Seq::empty()
    } else if rs.len() == 1 {
        line_of(rs[0])
    } else {
        line_of(rs[0]) + seq!['\n'] + render(rs.drop_first())
    }
}

/// What an entry must be like to be read back as it was written: a digest
/// that is not empty, holds no blank and no line break and does not start
/// with white space, and a path that is not empty, holds no line break and
/// does not end with white space.
pub open spec fn storable(r: Record) -> bool {
    &&& r.digest.len() > 0
    &&& !is_space(r.digest[0])
    &&& forall|i: int| 0 <= i < r.digest.len() ==> r.digest[i] != ' ' && r.digest[i] != '\n'
    &&& r.path.len() > 0
    &&& !is_space(r.path.last())
    &&& forall|i: int| 0 <= i < r.path.len() ==> r.path[i] != '\n'
}

/// Every entry can be read back as it was written.
pub open spec fn all_storable(rs: Seq<Record>) -> bool {
    forall|i: int| 0 <= i < rs.len() ==> storable(#[trigger] rs[i])
}

/// The line of a storable entry is read back as that entry.
pub proof fn lemma_line_round_trip(r: Record)
    requires
        storable(r),
    ensures
        parse_line(line_of(r)) == Some(r),
        forall|k: int| 0 <= k < line_of(r).len() ==> line_of(r)[k] != '\n',
{
    let line = line_of(r);
    let d = r.digest.len() as int;
    assert(line[0] == r.digest[0]);
    lemma_lead_is(line, space(), 0);
    assert(line.skip(0) =~= line);
    assert(line.last() == r.path.last());
    lemma_trail_is(line, space(), 0);
    assert(line.take(line.len() as int) =~= line);
    assert(trim(line) == line);
    assert forall|k: int| 0 <= k < d implies is_not(' ')(#[trigger] line[k]) by {
        assert(line[k] == r.digest[k]);
    }
    assert(line[d] == ' ');
    lemma_lead_is(line, is_not(' '), d);
    assert(line.take(d) =~= r.digest);
    assert(line.skip(d + 1) =~= r.path);
    assert forall|k: int| 0 <= k < line.len() implies line[k] != '\n' by {
        if k < d {
            assert(line[k] == r.digest[k]);
        } else if k > d {
            assert(line[k] == r.path[k - d - 1]);
        }
    }
}

/// Storable entries are read back from their text as they were written.
pub proof fn lemma_round_trip(rs: Seq<Record>)
    requires
        all_storable(rs),
    ensures
        parse(render(rs)) == rs,
    decreases rs.len(),
{
    let text = render(rs);
    if rs.len() == 0 {
        assert(text.take(0) =~= Seq::<char>::empty());
        let none = Seq::<char>::empty();
        assert(none.skip(0) =~= none);
        assert(none.take(0) =~= none);
        assert(trim(none) =~= none);
        assert(parse(text) =~= rs);
    } else {
        let line = line_of(rs[0]);
        let n = line.len() as int;
        lemma_line_round_trip(rs[0]);
        assert forall|k: int| 0 <= k < n implies is_not('\n')(#[trigger] text[k]) by {
            assert(text[k] == line[k]);
        }
        if rs.len() == 1 {
            lemma_lead_is(text, is_not('\n'), n);
            assert(text.take(n) =~= line);
            assert(parse(text) =~= rs);
        } else {
            let rest = rs.drop_first();
            assert(text[n] == '\n');
            lemma_lead_is(text, is_not('\n'), n);
            assert(text.take(n) =~= line);
            assert(text.skip(n + 1) =~= render(rest));
            assert forall|i: int| 0 <= i < rest.len() implies storable(#[trigger] rest[i]) by {
                assert(rest[i] == rs[i + 1]);
            }
            lemma_round_trip(rest);
            assert(seq![rs[0]] + rest =~= rs);
        }
    }
}

/// The text of the entries with one more entry after them.
pub proof fn lemma_render_push(rs: Seq<Record>, r: Record)
    ensures
        render(rs.push(r)) == if rs.len() == 0 {
            line_of(r)
        } else {
            render(rs) + seq!['\n'] + line_of(r)
        },
    decreases rs.len(),
{
    let all = rs.push(r);
    if rs.len() == 0 {
    } else if rs.len() == 1 {
        assert(all.drop_first() =~= seq![r]);
        assert(render(all.drop_first()) == line_of(r));
        assert(all[0] == rs[0]);
    } else {
        assert(all.drop_first() =~= rs.drop_first().push(r));
        lemma_render_push(rs.drop_first(), r);
        assert(all[0] == rs[0]);
        assert(render(all) =~= render(rs) + seq!['\n'] + line_of(r));
    }
}

/// `lead` is the place of the first character that fails the test.
pub proof fn lemma_lead_is(s: Seq<char>, p: spec_fn(char) -> bool, n: int)
    requires
        0 <= n <= s.len(),
        forall|k: int| 0 <= k < n ==> p(#[trigger] s[k]),
        n < s.len() ==> !p(s[n]),
    ensures
        lead(s, p) == n,
    decreases n,
{
    if n > 0 {
        let rest = s.drop_first();
        assert forall|k: int| 0 <= k < n - 1 implies p(#[trigger] rest[k]) by {
            assert(rest[k] == s[k + 1]);
        }
        lemma_lead_is(rest, p, n - 1);
    }
}

/// `trail` counts back to the last character that fails the test.
pub proof fn lemma_trail_is(s: Seq<char>, p: spec_fn(char) -> bool, n: int)
    requires
        0 <= n <= s.len(),
        forall|k: int| s.len() - n <= k < s.len() ==> p(#[trigger] s[k]),
        n < s.len() ==> !p(s[s.len() - n - 1]),
    ensures
        trail(s, p) == n,
    decreases n,
{
    if n > 0 {
        let rest = s.drop_last();
        assert forall|k: int| rest.len() - (n - 1) <= k < rest.len() implies p(
            #[trigger] rest[k],
        ) by {
            assert(rest[k] == s[k]);
        }
        lemma_trail_is(rest, p, n - 1);
    }
}

/// Whether `c` is white space.
pub fn is_space_char(c: char) -> (r: bool)
    ensures
        r == is_space(c),
{
    let n: u32 = c as u32;
    (0x09 <= n && n <= 0x0D) || n == 0x20 || n == 0x85 || n == 0xA0 || n == 0x1680 || (0x2000 <= n
        && n <= 0x200A) || n == 0x2028 || n == 0x2029 || n == 0x202F || n == 0x205F || n == 0x3000
}

/// The first place in `chars[from..to]` that holds `stop`, or `to`.
fn find_char(chars: &Vec<char>, from: usize, to: usize, stop: char) -> (at: usize)
    requires
        from <= to <= chars.len(),
    ensures
        from <= at <= to,
        at - from == lead(chars@.subrange(from as int, to as int), is_not(stop)),
{
    let mut at: usize = from;
    while at < to && chars[at] != stop
        invariant
            from <= at <= to <= chars.len(),
            forall|k: int| from <= k < at ==> chars@[k] != stop,
        decreases to - at,
    {
        at += 1;
    }
    proof {
        lemma_lead_is(chars@.subrange(from as int, to as int), is_not(stop), at - from);
    }
    at
}

/// The first place in `chars[from..to]` that holds no white space, or `to`.
fn skip_spaces(chars: &Vec<char>, from: usize, to: usize) -> (at: usize)
    requires
        from <= to <= chars.len(),
    ensures
        from <= at <= to,
        at - from == lead(chars@.subrange(from as int, to as int), space()),
{
    let mut at: usize = from;
    while at < to && is_space_char(chars[at])
        invariant
            from <= at <= to <= chars.len(),
            forall|k: int| from <= k < at ==> is_space(chars@[k]),
        decreases to - at,
    {
        at += 1;
    }
    proof {
        lemma_lead_is(chars@.subrange(from as int, to as int), space(), at - from);
    }
    at
}

/// The place after the last character of `chars[from..to]` that is no white
/// space, or `from`.
fn back_spaces(chars: &Vec<char>, from: usize, to: usize) -> (at: usize)
    requires
        from <= to <= chars.len(),
    ensures
        from <= at <= to,
        to - at == trail(chars@.subrange(from as int, to as int), space()),
{
    let mut at: usize = to;
    while at > from && is_space_char(chars[at - 1])
        invariant
            from <= at <= to <= chars.len(),
            forall|k: int| at <= k < to ==> is_space(chars@[k]),
        decreases at - from,
    {
        at -= 1;
    }
    proof {
        lemma_trail_is(chars@.subrange(from as int, to as int), space(), to - at);
    }
    at
}

/// One entry as it was read: digest and path.
pub struct Line {
    pub digest: String,
    pub path: String,
}

impl View for Line {
    type V = Record;

    open spec fn view(&self) -> Record {
        Record { path: self.path@, digest: self.digest@ }
    }
}

/// The entries as they were read, in the same order.
pub open spec fn lines_view(lines: Seq<Line>) -> Seq<Record> {
    lines.map_values(|l: Line| l@)
}

/// Reads the line `chars[from..to]`.
fn read_line(chars: &Vec<char>, from: usize, to: usize) -> (line: Option<Line>)
    requires
        from <= to <= chars.len(),
    ensures
        match line {
            Some(l) => parse_line(chars@.subrange(from as int, to as int)) == Some(l@),
            None => parse_line(chars@.subrange(from as int, to as int)) is None,
        },
{
    let ghost whole = chars@.subrange(from as int, to as int);
    let a = skip_spaces(chars, from, to);
    let b = back_spaces(chars, a, to);
    let blank = find_char(chars, a, b, ' ');
    proof {
        let rest = whole.skip(lead(whole, space()) as int);
        assert(rest =~= chars@.subrange(a as int, to as int));
        let t = trim(whole);
        assert(t =~= chars@.subrange(a as int, b as int));
        if blank < b {
            assert(t.take(blank - a) =~= chars@.subrange(a as int, blank as int));
            assert(t.skip(blank - a + 1) =~= chars@.subrange(blank + 1, b as int));
        }
    }
    if blank < b {
        Some(Line { digest: string_of(chars, a, blank), path: string_of(chars, blank + 1, b) })
    } else {
        None
    }
}

/// Reads the entries that `text` holds, line by line.
pub fn read_lines(text: &str) -> (lines: Vec<Line>)
    ensures
        lines_view(lines@) == parse(text@),
{
    let chars = chars_of(text);
    let mut lines: Vec<Line> = Vec::new();
    let mut pos: usize = 0;
    let mut done = false;
    proof {
        assert(chars@.skip(0) =~= chars@);
        assert(lines_view(lines@) =~= Seq::<Record>::empty());
    }
    while !done
        invariant
            pos <= chars.len(),
            chars@ == text@,
            !done ==> parse(text@) == lines_view(lines@) + parse(chars@.skip(pos as int)),
            done ==> parse(text@) == lines_view(lines@),
        decreases chars.len() - pos + if done { 0int } else { 1int },
    {
        let end = find_char(&chars, pos, chars.len(), '\n');
        let ghost rest = chars@.skip(pos as int);
        let ghost before = lines_view(lines@);
        let ghost first = match parse_line(rest.take(end - pos)) {
            Some(r) => seq![r],
            None => Seq::empty(),
        };
        proof {
            assert(rest =~= chars@.subrange(pos as int, chars.len() as int));
            assert(rest.take(end - pos) =~= chars@.subrange(pos as int, end as int));
        }
        match read_line(&chars, pos, end) {
            Some(line) => {
                lines.push(line);
                proof {
                    assert(lines_view(lines@) =~= before + first);
                }
            },
            None => {
                proof {
                    assert(lines_view(lines@) =~= before + first);
                }
            },
        }
        if end < chars.len() {
            proof {
                assert(rest.skip(end - pos + 1) =~= chars@.skip(end + 1));
                assert(before + (first + parse(chars@.skip(end + 1))) =~= (before + first) + parse(
                    chars@.skip(end + 1),
                ));
            }
            pos = end + 1;
        } else {
            done = true;
        }
    }
    lines
}

} // verus!
