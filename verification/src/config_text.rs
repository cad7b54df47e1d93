//! The text of a peer configuration: one peer a line, written `name|host`.
//! Lines are cut as std's `str::lines` cuts them, then trimmed of white
//! space at both ends, then split at their first `|`.
use vstd::prelude::*;
use vstd::std_specs::iter::IteratorSpec;
use vstd::string::StrSliceExecFns;

verus! {

broadcast use vstd::string::group_string_axioms;

/// Whether `c` has the Unicode `White_Space` property: the controls from
/// tab to carriage return, space, next line, no-break space, ogham space
/// mark, the spaces from en quad to hair space, the line and paragraph
/// separators, narrow no-break space, medium mathematical space and
/// ideographic space.
pub open spec fn is_white_space(c: char) -> bool {
    let u = c as u32;
    ||| 0x09 <= u <= 0x0d
    ||| u == 0x20
    ||| u == 0x85
    ||| u == 0xa0
    ||| u == 0x1680
    ||| 0x2000 <= u <= 0x200a
    ||| u == 0x2028
    ||| u == 0x2029
    ||| u == 0x202f
    ||| u == 0x205f
    ||| u == 0x3000
}

/// Whether `c` is white space, as std's `char::is_whitespace` says.
pub fn char_is_whitespace(c: char) -> (r: bool)
    ensures
        r == is_white_space(c),
{
    let u = c as u32;
    (0x09 <= u && u <= 0x0d) || u == 0x20 || u == 0x85 || u == 0xa0 || u == 0x1680 || (0x2000
        <= u && u <= 0x200a) || u == 0x2028 || u == 0x2029 || u == 0x202f || u == 0x205f || u
        == 0x3000
}

/// The lines finished so far and the line under way, after reading `s`
/// from the front: a newline ends a line, and a carriage return just before
/// it is not part of the line.
pub open spec fn line_state(s: Seq<char>) -> (Seq<Seq<char>>, Seq<char>)
    decreases s.len(),
{
    if s.len() == 0 {
        (seq![], seq![])
    } else {
        let (done, cur) = line_state(s.drop_last());
        if s.last() == '\n' {
            (done.push(strip_cr(cur)), seq![])
        } else {
            (done, cur.push(s.last()))
        }
    }
}

/// A line without the carriage return that ends it, if one does.
pub open spec fn strip_cr(line: Seq<char>) -> Seq<char> {
    if line.len() > 0 && line.last() == '\r' {
        line.drop_last()
    } else {
        line
    }
}

/// The lines of a text; a last line without a newline counts, an empty one
/// does not.
pub open spec fn lines(s: Seq<char>) -> Seq<Seq<char>> {
    let (done, cur) = line_state(s);
    if cur.len() == 0 {
        done
    } else {
        done.push(cur)
    }
}

pub open spec fn trim_start(s: Seq<char>) -> Seq<char>
    decreases s.len(),
{
    if s.len() > 0 && is_white_space(s[0]) {
        trim_start(s.drop_first())
    } else {
        s
    }
}

pub open spec fn trim_end(s: Seq<char>) -> Seq<char>
    decreases s.len(),
{
    if s.len() > 0 && is_white_space(s.last()) {
        trim_end(s.drop_last())
    } else {
        s
    }
}

/// A line without the white space at its ends.
pub open spec fn trimmed(s: Seq<char>) -> Seq<char> {
    trim_end(trim_start(s))
}

/// `k` is where the first `|` of `s` stands.
pub open spec fn is_first_bar(s: Seq<char>, k: int) -> bool {
    &&& 0 <= k < s.len()
    &&& s[k] == '|'
    &&& forall|j: int| 0 <= j < k ==> s[j] != '|'
}

/// What stands before and after the first `|` of `s`, if it has one.
pub open spec fn split_bar(s: Seq<char>) -> Option<(Seq<char>, Seq<char>)> {
    if exists|k: int| is_first_bar(s, k) {
        let k = choose|k: int| is_first_bar(s, k);
        Some((s.take(k), s.skip(k + 1)))
    } else {
        None
    }
}

/// The trimmed lines of a configuration.
pub open spec fn config_lines(text: Seq<char>) -> Seq<Seq<char>> {
    lines(text).map_values(|l: Seq<char>| trimmed(l))
}

/// The first line without a `|`, or the number of lines if every line has one.
pub open spec fn first_unsplit(ls: Seq<Seq<char>>) -> int
    decreases ls.len(),
{
    if ls.len() == 0 {
        0
    } else if split_bar(ls[0]) is None {
        0
    } else {
        1 + first_unsplit(ls.drop_first())
    }
}

/// `n - 1`, where `0 - 1` wraps around to the largest `usize`.
pub open spec fn wrapping_pred(n: nat) -> usize {
    if n == 0 {
        usize::MAX
    } else {
        (n - 1) as usize
    }
}

/// One line of a configuration that names a peer.
#[derive(Debug)]
pub struct ConfigLine {
    /// Where the line stands, counted from `0`.
    pub line_no: usize,
    /// The line, trimmed.
    pub line: String,
    /// What stands before the first `|`.
    pub name: String,
    /// What stands after it.
    pub host: String,
    /// Where the host starts in the line: one past the length of the name.
    pub column: usize,
}

/// A line without a `|`.
#[derive(Debug)]
pub struct UnsplitLine {
    pub line_no: usize,
    pub line: String,
    /// One less than the length of the line, wrapping around for an empty line.
    pub column: usize,
}

/// The lines of a configuration up to the first that has no `|`, and that
/// one, if there is one.
#[derive(Debug)]
pub struct ConfigLines {
    pub lines: Vec<ConfigLine>,
    pub unsplit: Option<UnsplitLine>,
}

/// `lines` holds, split, the first `count` trimmed lines of `text`.
pub open spec fn split_lines_agree(lines: Seq<ConfigLine>, ls: Seq<Seq<char>>) -> bool {
    &&& lines.len() <= ls.len()
    &&& forall|i: int|
        0 <= i < lines.len() ==> {
            let l = #[trigger] lines[i];
            &&& l.line_no == i
            &&& l.line@ == ls[i]
            &&& split_bar(ls[i]) == Some((l.name@, l.host@))
            &&& l.column == l.name@.len() + 1
        }
}

/// What `split_config` gives for a text.
pub open spec fn config_lines_agree(r: ConfigLines, text: Seq<char>) -> bool {
    let ls = config_lines(text);
    let k = first_unsplit(ls);
    &&& r.lines@.len() == k
    &&& split_lines_agree(r.lines@, ls)
    &&& (k < ls.len()) == (r.unsplit is Some)
    &&& r.unsplit matches Some(u) ==> {
        &&& u.line_no == k
        &&& u.line@ == ls[k]
        &&& u.column == wrapping_pred(ls[k].len())
    }
}

/// The characters of a text.
pub fn text_chars(text: &str) -> (r: Vec<char>)
    ensures
        r@ == text@,
{
    let mut it = text.chars();
    let mut r: Vec<char> = Vec::new();
    loop
        invariant
            r@ + it.remaining() == text@,
            it.decrease() is Some,
        ensures
            r@ == text@,
        decreases it.decrease()->0,
    {
        match it.next() {
            Some(c) => {
                r.push(c);
                assert(r@ + it.remaining() =~= text@);
            },
            None => {
                assert(r@ =~= text@);
                break ;
            },
        }
    }
    r
}

/// Where each line of `chars` starts and ends.
fn line_spans(chars: &Vec<char>) -> (r: Vec<(usize, usize)>)
    ensures
        r@.len() == lines(chars@).len(),
        forall|j: int|
            0 <= j < r@.len() ==> {
                let (a, b) = #[trigger] r@[j];
                &&& a <= b <= chars@.len()
                &&& chars@.subrange(a as int, b as int) == lines(chars@)[j]
            },
{
    let mut spans: Vec<(usize, usize)> = Vec::new();
    let mut start: usize = 0;
    let mut i: usize = 0;
    let len = chars.len();
    while i < len
        invariant
            len == chars@.len(),
            start <= i <= len,
            spans@.len() == line_state(chars@.take(i as int)).0.len(),
            forall|j: int|
                0 <= j < spans@.len() ==> {
                    let (a, b) = #[trigger] spans@[j];
                    &&& a <= b <= len
                    &&& chars@.subrange(a as int, b as int) == line_state(
                        chars@.take(i as int),
                    ).0[j]
                },
            line_state(chars@.take(i as int)).1 == chars@.subrange(start as int, i as int),
        decreases len - i,
    {
        let ghost prev = line_state(chars@.take(i as int));
        proof {
            assert(chars@.take(i + 1).drop_last() =~= chars@.take(i as int));
        }
        if chars[i] == '\n' {
            let mut end = i;
            if end > start && chars[end - 1] == '\r' {
                end = end - 1;
                assert(chars@.subrange(start as int, end as int) =~= strip_cr(prev.1));
            } else {
                assert(chars@.subrange(start as int, end as int) =~= strip_cr(prev.1));
            }
            spans.push((start, end));
            start = i + 1;
        }
        i = i + 1;
        assert(line_state(chars@.take(i as int)).1 =~= chars@.subrange(start as int, i as int));
    }
    assert(chars@.take(len as int) =~= chars@);
    if start < len {
        spans.push((start, len));
    }
    spans
}

/// Where the trimmed part of `chars[start..end]` starts and ends.
fn trim_span(chars: &Vec<char>, start: usize, end: usize) -> (r: (usize, usize))
    requires
        start <= end <= chars@.len(),
    ensures
        start <= r.0 <= r.1 <= end,
        chars@.subrange(r.0 as int, r.1 as int) == trimmed(chars@.subrange(start as int, end as int)),
{
    let ghost whole = chars@.subrange(start as int, end as int);
    let mut a = start;
    while a < end && char_is_whitespace(chars[a])
        invariant
            start <= a <= end <= chars@.len(),
            trim_start(whole) == trim_start(chars@.subrange(a as int, end as int)),
        decreases end - a,
    {
        assert(chars@.subrange(a as int, end as int).drop_first() =~= chars@.subrange(
            a + 1,
            end as int,
        ));
        a = a + 1;
    }
    assert(trim_start(chars@.subrange(a as int, end as int)) == chars@.subrange(
        a as int,
        end as int,
    ));
    let mut b = end;
    while b > a && char_is_whitespace(chars[b - 1])
        invariant
            start <= a <= b <= end <= chars@.len(),
            trimmed(whole) == trim_end(chars@.subrange(a as int, b as int)),
        decreases b - a,
    {
        assert(chars@.subrange(a as int, b as int).drop_last() =~= chars@.subrange(
            a as int,
            b - 1,
        ));
        b = b - 1;
    }
    (a, b)
}

/// Splitting at the first `|` gives what stands before and after it.
proof fn lemma_split_bar_at(s: Seq<char>, k: int)
    requires
        is_first_bar(s, k),
    ensures
        split_bar(s) == Some((s.take(k), s.skip(k + 1))),
{
    let c = choose|c: int| is_first_bar(s, c);
    if c < k {
        assert(s[c] != '|');
    } else if k < c {
        assert(s[k] != '|');
    }
}

/// A line that splits is its name, a `|`, and its host, and its name holds
/// no `|`; a line that does not split holds no `|` at all.
pub proof fn lemma_split_bar_parts(s: Seq<char>)
    ensures
        split_bar(s) matches Some((name, host)) ==> {
            &&& name + seq!['|'] + host == s
            &&& !name.contains('|')
        },
        split_bar(s) is None ==> !s.contains('|'),
{
    if exists|k: int| is_first_bar(s, k) {
        let k = choose|k: int| is_first_bar(s, k);
        assert(s.take(k) + seq!['|'] + s.skip(k + 1) =~= s);
        if s.take(k).contains('|') {
            let j = choose|j: int| 0 <= j < s.take(k).len() && s.take(k)[j] == '|';
            assert(s[j] == '|');
        }
    } else if s.contains('|') {
        let j = choose|j: int| 0 <= j < s.len() && s[j] == '|';
        lemma_first_bar_exists(s, j);
    }
}

/// A line with a `|` has a first one.
proof fn lemma_first_bar_exists(s: Seq<char>, j: int)
    requires
        0 <= j < s.len(),
        s[j] == '|',
    ensures
        exists|k: int| is_first_bar(s, k),
    decreases j,
{
    if exists|i: int| 0 <= i < j && s[i] == '|' {
        let i = choose|i: int| 0 <= i < j && s[i] == '|';
        lemma_first_bar_exists(s, i);
    } else {
        assert(is_first_bar(s, j));
    }
}

/// Where the first `|` of `chars[start..end]` stands, if it has one.
fn find_bar(chars: &Vec<char>, start: usize, end: usize) -> (r: Option<usize>)
    requires
        start <= end <= chars@.len(),
    ensures
        r matches Some(k) ==> start <= k < end && split_bar(
            chars@.subrange(start as int, end as int),
        ) == Some((chars@.subrange(start as int, k as int), chars@.subrange(k + 1, end as int))),
        r is None ==> split_bar(chars@.subrange(start as int, end as int)) is None,
{
    let ghost s = chars@.subrange(start as int, end as int);
    let mut k = start;
    while k < end
        invariant
            start <= k <= end <= chars@.len(),
            s == chars@.subrange(start as int, end as int),
            forall|j: int| 0 <= j < k - start ==> s[j] != '|',
        decreases end - k,
    {
        if chars[k] == '|' {
            proof {
                assert(is_first_bar(s, k - start));
                lemma_split_bar_at(s, k - start);
                assert(s.take(k - start) =~= chars@.subrange(start as int, k as int));
                assert(s.skip(k - start + 1) =~= chars@.subrange(k + 1, end as int));
            }
            return Some(k);
        }
        k = k + 1;
    }
    None
}

/// The first line without a `|` is the first whose split fails.
proof fn lemma_first_unsplit(ls: Seq<Seq<char>>, i: int)
    requires
        0 <= i <= ls.len(),
        forall|j: int| 0 <= j < i ==> #[trigger] split_bar(ls[j]) is Some,
        i < ls.len() ==> split_bar(ls[i]) is None,
    ensures
        first_unsplit(ls) == i,
    decreases i,
{
    if i > 0 {
        let rest = ls.drop_first();
        assert forall|j: int| 0 <= j < i - 1 implies #[trigger] split_bar(rest[j]) is Some by {
            assert(rest[j] == ls[j + 1]);
            assert(split_bar(ls[j + 1]) is Some);
        }
        if i < ls.len() {
            assert(rest[i - 1] == ls[i]);
        }
        assert(split_bar(ls[0]) is Some);
        lemma_first_unsplit(rest, i - 1);
    }
}

/// The lines of a configuration, trimmed and split at their first `|`, up to
/// the first that has none, and that one.
pub fn split_config(text: &str) -> (r: ConfigLines)
    ensures
        config_lines_agree(r, text@),
{
    let chars = text_chars(text);
    let spans = line_spans(&chars);
    let ghost ls = config_lines(text@);
    let mut out: Vec<ConfigLine> = Vec::new();
    let mut i: usize = 0;
    while i < spans.len()
        invariant
            chars@ == text@,
            spans@.len() == lines(chars@).len(),
            forall|j: int|
                0 <= j < spans@.len() ==> {
                    let (a, b) = #[trigger] spans@[j];
                    &&& a <= b <= chars@.len()
                    &&& chars@.subrange(a as int, b as int) == lines(chars@)[j]
                },
            ls == config_lines(text@),
            i <= spans@.len(),
            out@.len() == i,
            split_lines_agree(out@, ls),
            forall|j: int| 0 <= j < i ==> #[trigger] split_bar(ls[j]) is Some,
        decreases spans@.len() - i,
    {
        let (start, end) = spans[i];
        let (a, b) = trim_span(&chars, start, end);
        proof {
            assert(ls[i as int] == trimmed(lines(chars@)[i as int]));
            assert(ls[i as int] == chars@.subrange(a as int, b as int));
        }
        let line = text.substring_char(a, b).to_owned();
        match find_bar(&chars, a, b) {
            Some(k) => {
                let name = text.substring_char(a, k).to_owned();
                let host = text.substring_char(k + 1, b).to_owned();
                let entry = ConfigLine { line_no: i, line, name, host, column: k - a + 1 };
                out.push(entry);
                i = i + 1;
            },
            None => {
                let column = if b == a {
                    usize::MAX
                } else {
                    b - a - 1
                };
                proof {
                    lemma_first_unsplit(ls, i as int);
                }
                return ConfigLines {
                    lines: out,
                    unsplit: Some(UnsplitLine { line_no: i, line, column }),
                };
            },
        }
    }
    proof {
        lemma_first_unsplit(ls, i as int);
    }
    ConfigLines { lines: out, unsplit: None }
}

} // verus!
