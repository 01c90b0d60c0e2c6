use vstd::prelude::*;
use vstd::std_specs::iter::IteratorSpec;

verus! {

/// The characters that Rust's `char::is_whitespace` accepts (the Unicode
/// `White_Space` property).
pub open spec fn is_whitespace_code(u: u32) -> bool {
    (0x09 <= u <= 0x0D) || u == 0x20 || u == 0x85 || u == 0xA0 || u == 0x1680 || (0x2000 <= u
        <= 0x200A) || u == 0x2028 || u == 0x2029 || u == 0x202F || u == 0x205F || u == 0x3000
}

/// `char::is_whitespace`.
pub open spec fn is_whitespace(c: char) -> bool {
    is_whitespace_code(c as u32)
}

/// The pieces of `text` between line feeds, the last one possibly empty.
pub open spec fn line_pieces(text: Seq<char>) -> Seq<Seq<char>>
    decreases text.len(),
{
    if text.len() == 0 {
        seq![Seq::<char>::empty()]
    } else {
        let p = line_pieces(text.drop_last());
        if text.last() == '\n' {
            p.push(Seq::<char>::empty())
        } else {
            p.update(p.len() - 1, p.last().push(text.last()))
        }
    }
}

/// The lines of `text`, as a buffered reader yields them: the line feeds
/// end the lines, and the last line needs none.
pub open spec fn lines_of(text: Seq<char>) -> Seq<Seq<char>> {
    let p = line_pieces(text);
    if p.last().len() == 0 {
        p.drop_last()
    } else {
        p
    }
}

/// The words of `text` completed so far, and the word in progress.
pub open spec fn word_pieces(text: Seq<char>) -> (Seq<Seq<char>>, Seq<char>)
    decreases text.len(),
{
    if text.len() == 0 {
        (Seq::empty(), Seq::empty())
    } else {
        let (done, cur) = word_pieces(text.drop_last());
        let c = text.last();
        if is_whitespace(c) {
            if cur.len() > 0 {
                (done.push(cur), Seq::empty())
            } else {
                (done, cur)
            }
        } else {
            (done, cur.push(c))
        }
    }
}

/// The maximal runs of non-whitespace characters of `text`, in order (what
/// `str::split_whitespace` yields).
pub open spec fn words_of(text: Seq<char>) -> Seq<Seq<char>> {
    let (done, cur) = word_pieces(text);
    if cur.len() > 0 {
        done.push(cur)
    } else {
        done
    }
}

/// An ASCII decimal digit.
pub open spec fn is_digit(c: char) -> bool {
    '0' <= c && c <= '9'
}

/// The number that the decimal digits `d` denote.
pub open spec fn digits_value(d: Seq<char>) -> nat
    decreases d.len(),
{
    if d.len() == 0 {
        0
    } else {
        digits_value(d.drop_last()) * 10 + ((d.last() as u32) - ('0' as u32)) as nat
    }
}

/// The number that `word` denotes in decimal, with an optional leading `+`
/// (the syntax of Rust's `FromStr` for unsigned integers).
pub open spec fn decimal_value(word: Seq<char>) -> Option<nat> {
    let d = unsigned_digits(word);
    if d.len() > 0 && all_digits(d) {
        Some(digits_value(d))
    } else {
        None
    }
}

/// `word` without its leading `+`, if it has one.
pub open spec fn unsigned_digits(word: Seq<char>) -> Seq<char> {
    if word.len() > 0 && word[0] == '+' {
        word.drop_first()
    } else {
        word
    }
}

/// Every character of `d` is a decimal digit.
pub open spec fn all_digits(d: Seq<char>) -> bool {
    forall|i: int| 0 <= i < d.len() ==> #[trigger] is_digit(d[i])
}

/// `word` parsed as a `u64`.
pub open spec fn u64_word(word: Seq<char>) -> Option<u64> {
    match decimal_value(word) {
        Some(v) => if v <= u64::MAX {
            Some(v as u64)
        } else {
            None
        },
        None => None,
    }
}

/// `word` parsed as a `usize`.
pub open spec fn usize_word(word: Seq<char>) -> Option<usize> {
    match decimal_value(word) {
        Some(v) => if v <= usize::MAX {
            Some(v as usize)
        } else {
            None
        },
        None => None,
    }
}

/// The views of a sequence of character vectors.
pub open spec fn views(v: Seq<Vec<char>>) -> Seq<Seq<char>> {
    v.map_values(|w: Vec<char>| w@)
}

/// `char::is_whitespace`.
pub fn is_whitespace_char(c: char) -> (r: bool)
    ensures
        r == is_whitespace(c),
{
    let u = c as u32;
    (0x09 <= u && u <= 0x0D) || u == 0x20 || u == 0x85 || u == 0xA0 || u == 0x1680 || (0x2000 <= u
        && u <= 0x200A) || u == 0x2028 || u == 0x2029 || u == 0x202F || u == 0x205F || u == 0x3000
}

/// `FromIterator<char>` for `String`: the characters in order.
#[verifier::external_body]
pub(crate) fn string_of(chars: &Vec<char>) -> (s: String)
    ensures
        s@ == chars@,
{
    chars.iter().collect()
}

/// The characters of `s`.
pub fn chars_of(s: &str) -> (r: Vec<char>)
    ensures
        r@ == s@,
{
    broadcast use vstd::string::group_string_axioms;

    let mut r: Vec<char> = Vec::new();
    let ghost mut count: int = 0;
    for c in it: s.chars()
        invariant
            it.seq() == s@,
            count == it.index(),
            r@ == s@.take(count),
    {
        proof {
            assert(s@.take(count + 1) =~= s@.take(count).push(c));
            count = count + 1;
        }
        r.push(c);
    }
    proof {
        assert(s@.take(count) =~= s@);
    }
    r
}

/// The lines of `text`.
pub fn split_lines(text: &Vec<char>) -> (lines: Vec<Vec<char>>)
    ensures
        views(lines@) == lines_of(text@),
{
    let mut done: Vec<Vec<char>> = Vec::new();
    let mut cur: Vec<char> = Vec::new();
    let mut i: usize = 0;
    while i < text.len()
        invariant
            i <= text@.len(),
            views(done@).push(cur@) == line_pieces(text@.take(i as int)),
        decreases text@.len() - i,
    {
        let c = text[i];
        proof {
            assert(text@.take(i + 1).drop_last() =~= text@.take(i as int));
        }
        if c == '\n' {
            let finished = cur;
            let ghost before = views(done@);
            done.push(finished);
            cur = Vec::new();
            proof {
                assert(views(done@) =~= before.push(finished@));
            }
        } else {
            let ghost before = views(done@);
            cur.push(c);
            proof {
                assert(views(done@).push(cur@) =~= (before.push(cur@.drop_last())).update(before.len() as int, cur@));
            }
        }
        i += 1;
    }
    proof {
        assert(text@.take(i as int) =~= text@);
    }
    if cur.len() > 0 {
        done.push(cur);
    } else {
        proof {
            assert(views(done@) =~= views(done@).push(cur@).drop_last());
        }
    }
    done
}

/// The words of `text`.
pub fn split_words(text: &Vec<char>) -> (words: Vec<Vec<char>>)
    ensures
        views(words@) == words_of(text@),
{
    let mut done: Vec<Vec<char>> = Vec::new();
    let mut cur: Vec<char> = Vec::new();
    let mut i: usize = 0;
    while i < text.len()
        invariant
            i <= text@.len(),
            (views(done@), cur@) == word_pieces(text@.take(i as int)),
        decreases text@.len() - i,
    {
        let c = text[i];
        proof {
            assert(text@.take(i + 1).drop_last() =~= text@.take(i as int));
        }
        if is_whitespace_char(c) {
            if cur.len() > 0 {
                let finished = cur;
                let ghost before = views(done@);
                done.push(finished);
                cur = Vec::new();
                proof {
                    assert(views(done@) =~= before.push(finished@));
                }
            }
        } else {
            cur.push(c);
        }
        i += 1;
    }
    proof {
        assert(text@.take(i as int) =~= text@);
    }
    if cur.len() > 0 {
        let ghost before = views(done@);
        done.push(cur);
        proof {
            assert(views(done@) =~= before.push(cur@));
        }
    }
    done
}

/// A prefix of decimal digits denotes no more than the whole.
pub proof fn lemma_digits_prefix(d: Seq<char>, k: int)
    requires
        0 <= k <= d.len(),
        forall|i: int| 0 <= i < d.len() ==> #[trigger] is_digit(d[i]),
    ensures
        digits_value(d.take(k)) <= digits_value(d),
    decreases d.len() - k,
{
    if k < d.len() {
        lemma_digits_prefix(d, k + 1);
        assert(d.take(k + 1).drop_last() =~= d.take(k));
    } else {
        assert(d.take(k) =~= d);
    }
}

/// `word` parsed as a `u64`, as `str::parse::<u64>` does.
pub fn parse_u64_word(word: &Vec<char>) -> (r: Option<u64>)
    ensures
        r == u64_word(word@),
{
    let n = word.len();
    let mut start: usize = 0;
    if n > 0 && word[0] == '+' {
        start = 1;
    }
    let ghost d = unsigned_digits(word@);
    if start == n {
        proof {
            assert(d.len() == 0);
        }
        return None;
    }
    let mut value: u64 = 0;
    let mut i = start;
    while i < n
        invariant
            start <= i <= n,
            n == word@.len(),
            start < n,
            d == word@.subrange(start as int, n as int),
            d == unsigned_digits(word@),
            forall|k: int| start <= k < i ==> #[trigger] is_digit(word@[k]),
            value == digits_value(d.take(i - start)),
        decreases n - i,
    {
        let c = word[i];
        if !(c >= '0' && c <= '9') {
            proof {
                assert(!is_digit(d[i - start]));
                assert(!all_digits(d));
            }
            return None;
        }
        let digit = (c as u32 - '0' as u32) as u64;
        proof {
            assert(d.take(i + 1 - start).drop_last() =~= d.take(i - start));
            assert(d.take(i + 1 - start).last() == c);
        }
        match value.checked_mul(10) {
            Some(v) => match v.checked_add(digit) {
                Some(w) => {
                    value = w;
                },
                None => {
                    proof {
                        assert(digits_value(d.take(i + 1 - start)) == v + digit);
                        if all_digits(d) {
                            lemma_digits_prefix(d, i + 1 - start);
                        }
                    }
                    return None;
                },
            },
            None => {
                proof {
                    assert(digits_value(d.take(i + 1 - start)) >= value * 10);
                    if all_digits(d) {
                        lemma_digits_prefix(d, i + 1 - start);
                    }
                }
                return None;
            },
        }
        i += 1;
    }
    proof {
        assert(d.take(n - start) =~= d);
        assert forall|k: int| 0 <= k < d.len() implies #[trigger] is_digit(d[k]) by {
            assert(d[k] == word@[start + k]);
        }
    }
    Some(value)
}

/// `word` parsed as a `usize`, as `str::parse::<usize>` does.
pub fn parse_usize_word(word: &Vec<char>) -> (r: Option<usize>)
    ensures
        r == usize_word(word@),
{
    match parse_u64_word(word) {
        Some(v) => {
            if v <= usize::MAX as u64 {
                Some(v as usize)
            } else {
                None
            }
        },
        None => {
            proof {
                if decimal_value(word@) is Some {
                    assert(decimal_value(word@)->0 > u64::MAX);
                }
            }
            None
        },
    }
}

} // verus!
