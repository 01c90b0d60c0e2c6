use vstd::prelude::*;

use crate::solver::problem::Time;
use crate::solver::solution::Solution;
use crate::solver::text::{
    chars_of, is_whitespace, is_whitespace_char, lines_of, split_lines, string_of, views,
};

verus! {

/// The settings of an algorithm, as the user wrote them: one `name: value`
/// pair per line.
pub type Settings = String;

/// `s` without its leading whitespace.
pub open spec fn trim_start(s: Seq<char>) -> Seq<char>
    decreases s.len(),
{
    if s.len() > 0 && is_whitespace(s[0]) {
        trim_start(s.drop_first())
    } else {
        s
    }
}

/// `s` without its trailing whitespace.
pub open spec fn trim_end(s: Seq<char>) -> Seq<char>
    decreases s.len(),
{
    if s.len() > 0 && is_whitespace(s.last()) {
        trim_end(s.drop_last())
    } else {
        s
    }
}

/// `s` without whitespace at either end (what `str::trim` gives).
pub open spec fn trimmed(s: Seq<char>) -> Seq<char> {
    trim_end(trim_start(s))
}

/// The position of the first colon of `s`, or its length where it has none.
pub open spec fn colon_at(s: Seq<char>) -> int
    decreases s.len(),
{
    if s.len() == 0 {
        0
    } else if s[0] == ':' {
        0
    } else {
        1 + colon_at(s.drop_first())
    }
}

/// The setting that a line defines: the trimmed text before its first colon
/// and the trimmed text between that colon and the next one (or the end of
/// the line). A line without a colon defines none.
pub open spec fn line_setting(line: Seq<char>) -> Option<(Seq<char>, Seq<char>)> {
    let i = colon_at(line);
    if i >= line.len() {
        None
    } else {
        let rest = line.skip(i + 1);
        Some((trimmed(line.take(i)), trimmed(rest.take(colon_at(rest)))))
    }
}

/// The settings that `lines` define, in order.
pub open spec fn lines_settings(lines: Seq<Seq<char>>) -> Seq<(Seq<char>, Seq<char>)>
    decreases lines.len(),
{
    if lines.len() == 0 {
        Seq::empty()
    } else {
        let before = lines_settings(lines.drop_last());
        match line_setting(lines.last()) {
            Some(p) => before.push(p),
            None => before,
        }
    }
}

/// The `name: value` pairs that a settings text defines, line by line. (A
/// carriage return before a line feed ends up trimmed away with the rest of
/// the whitespace around a value.)
pub open spec fn settings_entries(text: Seq<char>) -> Seq<(Seq<char>, Seq<char>)> {
    lines_settings(lines_of(text))
}

/// The texts of a list of settings.
pub open spec fn entries_view(v: Seq<(String, String)>) -> Seq<(Seq<char>, Seq<char>)> {
    v.map_values(|p: (String, String)| (p.0@, p.1@))
}

/// The value of `name` among `entries`: a later pair overrides an earlier one.
pub open spec fn setting_of(entries: Seq<(Seq<char>, Seq<char>)>, name: Seq<char>) -> Option<
    Seq<char>,
>
    decreases entries.len(),
{
    if entries.len() == 0 {
        None
    } else if entries.last().0 == name {
        Some(entries.last().1)
    } else {
        setting_of(entries.drop_last(), name)
    }
}

/// What one step of an algorithm reports: a message, the total flow time of
/// the best schedule found so far, and that schedule.
pub struct RunLog {
    pub message: String,
    pub fitness: Time,
    pub best: Solution,
}

/// A search algorithm as the interface offers it: a name and a settings text.
pub trait Adapter {
    /// The settings text.
    spec fn settings_view(&self) -> Seq<char>;

    fn new(settings: Settings) -> (r: Self) where Self: Sized
        ensures
            r.settings_view() == settings@,
    ;

    fn name(&self) -> &'static str;

    fn short_name(&self) -> &'static str;

    fn get_settings(&self) -> (r: &Settings)
        ensures
            r@ == self.settings_view(),
    ;

    fn set_settings(&mut self, new_settings: Settings)
        ensures
            final(self).settings_view() == new_settings@,
    ;

    /// The `name: value` pairs of the settings text, line by line; where a
    /// name comes twice, the later pair is the one that counts.
    fn build_settings(&self) -> (r: Vec<(String, String)>)
        ensures
            entries_view(r@) == settings_entries(self.settings_view()),
    {
        parse_settings(self.get_settings().as_str())
    }
}

/// The `name: value` pairs that `text` defines, line by line.
pub fn parse_settings(text: &str) -> (r: Vec<(String, String)>)
    ensures
        entries_view(r@) == settings_entries(text@),
{
    let chars = chars_of(text);
    let lines = split_lines(&chars);
    let ghost ls = lines_of(text@);
    let mut r: Vec<(String, String)> = Vec::new();
    let mut i: usize = 0;
    while i < lines.len()
        invariant
            views(lines@) == ls,
            i <= ls.len(),
            entries_view(r@) == lines_settings(ls.take(i as int)),
        decreases ls.len() - i,
    {
        let line = &lines[i];
        proof {
            assert(ls.take(i + 1).drop_last() =~= ls.take(i as int));
            assert(line@ == ls[i as int]);
        }
        let colon: usize = first_colon(line, 0);
        if colon < line.len() {
            let next: usize = first_colon(line, colon + 1);
            let name = trim_range(line, 0, colon);
            let value = trim_range(line, colon + 1, next);
            proof {
                let rest = line@.skip(colon + 1);
                assert(line@.skip(0) =~= line@);
                lemma_colon_at(line@, 0, colon as int);
                lemma_colon_at(line@, colon + 1, next as int);
                assert(line@.subrange(0, colon as int) =~= line@.take(colon as int));
                assert(line@.subrange(colon + 1, next as int) =~= rest.take(colon_at(rest)));
                assert(line_setting(ls[i as int]) == Some((name@, value@)));
            }
            let ghost before = entries_view(r@);
            r.push((string_of(&name), string_of(&value)));
            proof {
                assert(entries_view(r@) =~= before.push((name@, value@)));
            }
        } else {
            proof {
                assert(line@.skip(0) =~= line@);
                lemma_colon_at(line@, 0, colon as int);
            }
        }
        i += 1;
    }
    proof {
        assert(ls.take(i as int) =~= ls);
    }
    r
}

/// The position of the first colon of `line` at or after `from`, or the
/// length of `line` where there is none.
fn first_colon(line: &Vec<char>, from: usize) -> (r: usize)
    requires
        from <= line@.len(),
    ensures
        from <= r <= line@.len(),
        forall|k: int| from <= k < r ==> line@[k] != ':',
        r < line@.len() ==> line@[r as int] == ':',
{
    let mut i: usize = from;
    while i < line.len() && line[i] != ':'
        invariant
            from <= i <= line@.len(),
            forall|k: int| from <= k < i ==> line@[k] != ':',
        decreases line@.len() - i,
    {
        i += 1;
    }
    i
}

/// `colon_at` of the text from `from` on is found by a scan.
proof fn lemma_colon_at(s: Seq<char>, from: int, r: int)
    requires
        0 <= from <= r <= s.len(),
        forall|k: int| from <= k < r ==> s[k] != ':',
        r < s.len() ==> s[r] == ':',
    ensures
        colon_at(s.skip(from)) == r - from,
    decreases r - from,
{
    if from < r {
        assert(s.skip(from).drop_first() =~= s.skip(from + 1));
        lemma_colon_at(s, from + 1, r);
    }
}

/// `line[from..to]` without whitespace at either end.
fn trim_range(line: &Vec<char>, from: usize, to: usize) -> (r: Vec<char>)
    requires
        from <= to <= line@.len(),
    ensures
        r@ == trimmed(line@.subrange(from as int, to as int)),
{
    let mut a: usize = from;
    while a < to && is_whitespace_char(line[a])
        invariant
            from <= a <= to <= line@.len(),
            forall|k: int| from <= k < a ==> is_whitespace(#[trigger] line@[k]),
        decreases to - a,
    {
        a += 1;
    }
    let mut b: usize = to;
    while b > a && is_whitespace_char(line[b - 1])
        invariant
            from <= a <= b <= to <= line@.len(),
            forall|k: int| b <= k < to ==> is_whitespace(#[trigger] line@[k]),
        decreases b - a,
    {
        b -= 1;
    }
    let mut r: Vec<char> = Vec::new();
    let mut k: usize = a;
    while k < b
        invariant
            a <= k <= b <= line@.len(),
            r@ == line@.subrange(a as int, k as int),
        decreases b - k,
    {
        r.push(line[k]);
        proof {
            assert(r@ =~= line@.subrange(a as int, k + 1));
        }
        k += 1;
    }
    proof {
        let s = line@.subrange(from as int, to as int);
        lemma_trim_start(s, a - from);
        let t = s.skip(a - from);
        lemma_trim_end(t, b - a);
        assert(t.take(b - a) =~= line@.subrange(a as int, b as int));
    }
    r
}

/// Skipping the leading whitespace found by a scan.
proof fn lemma_trim_start(s: Seq<char>, a: int)
    requires
        0 <= a <= s.len(),
        forall|k: int| 0 <= k < a ==> is_whitespace(#[trigger] s[k]),
        a == s.len() || !is_whitespace(s[a]),
    ensures
        trim_start(s) == s.skip(a),
    decreases a,
{
    if a == 0 {
        assert(s.skip(0) =~= s);
    } else {
        assert(s.drop_first().skip(a - 1) =~= s.skip(a));
        lemma_trim_start(s.drop_first(), a - 1);
    }
}

/// Dropping the trailing whitespace found by a scan.
proof fn lemma_trim_end(s: Seq<char>, b: int)
    requires
        0 <= b <= s.len(),
        forall|k: int| b <= k < s.len() ==> is_whitespace(#[trigger] s[k]),
        b == 0 || !is_whitespace(s[b - 1]),
    ensures
        trim_end(s) == s.take(b),
    decreases s.len() - b,
{
    if b == s.len() {
        assert(s.take(b) =~= s);
    } else {
        assert(s.drop_last().take(b) =~= s.take(b));
        lemma_trim_end(s.drop_last(), b);
    }
}

} // verus!
