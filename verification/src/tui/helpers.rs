use vstd::prelude::*;

use crate::solver::solution::{is_permutation, parse_order, Solution};
use crate::solver::text::{
    all_digits, decimal_value, digits_value, is_digit, is_whitespace, string_of, unsigned_digits,
    usize_word, word_pieces, words_of,
};

verus! {

/// Reads a schedule written as whitespace-separated job numbers; `None`
/// where a piece is not a number.
pub fn parse_solution(raw_solution: &str) -> (r: Option<Solution>)
    ensures
        match r {
            Some(s) => parse_order(raw_solution@) == Some(s@),
            None => parse_order(raw_solution@) is None,
        },
{
    Solution::parse(raw_solution)
}

/// The schedule that a run starts from: the one in the text field, where it
/// reads as a permutation of the jobs.
pub fn initial_solution(raw_solution: &str, jobs_amount: usize) -> (r: Option<Solution>)
    ensures
        match r {
            Some(s) => parse_order(raw_solution@) == Some(s@) && is_permutation(s@, jobs_amount as nat),
            None => match parse_order(raw_solution@) {
                Some(o) => !is_permutation(o, jobs_amount as nat),
                None => true,
            },
        },
{
    match parse_solution(raw_solution) {
        Some(s) => {
            if s.is_valid(jobs_amount) {
                Some(s)
            } else {
                None
            }
        },
        None => None,
    }
}

/// The decimal digit for `d < 10`.
pub open spec fn digit_char(d: nat) -> char {
    ((d + 48) as u32) as char
}

/// The decimal notation of `n`, without leading zeros.
pub open spec fn decimal_digits(n: nat) -> Seq<char>
    decreases n,
{
    if n < 10 {
        seq![digit_char(n)]
    } else {
        decimal_digits(n / 10).push(digit_char(n % 10))
    }
}

/// A schedule written as its job numbers in decimal, one space apart.
pub open spec fn order_text(order: Seq<usize>) -> Seq<char>
    decreases order.len(),
{
    if order.len() == 0 {
        Seq::empty()
    } else if order.len() == 1 {
        decimal_digits(order[0] as nat)
    } else {
        order_text(order.drop_last()) + seq![' '] + decimal_digits(order.last() as nat)
    }
}

/// Appends the decimal notation of `n`.
fn push_decimal(out: &mut Vec<char>, n: usize)
    ensures
        final(out)@ == old(out)@ + decimal_digits(n as nat),
    decreases n,
{
    if n >= 10 {
        push_decimal(out, n / 10);
    }
    let d: u8 = (n % 10) as u8;
    let c: char = (48u8 + d) as char;
    proof {
        assert(c == digit_char((n % 10) as nat));
    }
    out.push(c);
    proof {
        if n < 10 {
            assert(old(out)@ + decimal_digits(n as nat) =~= old(out)@.push(c));
        }
    }
}

/// A schedule written as its job numbers in decimal, one space apart (as the
/// interface shows the best schedule found).
pub fn solution_text(solution: &Solution) -> (r: String)
    ensures
        r@ == order_text(solution@),
{
    let mut out: Vec<char> = Vec::new();
    let mut i: usize = 0;
    while i < solution.data.len()
        invariant
            i <= solution@.len(),
            out@ == order_text(solution@.take(i as int)),
        decreases solution@.len() - i,
    {
        proof {
            assert(solution@.take(i + 1).drop_last() =~= solution@.take(i as int));
        }
        if i > 0 {
            out.push(' ');
        }
        let ghost before = out@;
        push_decimal(&mut out, solution.data[i]);
        proof {
            if i == 0 {
                assert(out@ =~= decimal_digits(solution@[0] as nat));
            }
        }
        i += 1;
    }
    proof {
        assert(solution@.take(i as int) =~= solution@);
    }
    string_of(&out)
}

/// The decimal words of a schedule's job numbers.
pub open spec fn decimal_words(order: Seq<usize>) -> Seq<Seq<char>> {
    order.map_values(|j: usize| decimal_digits(j as nat))
}

/// Reading back a schedule written by `solution_text` gives that schedule.
pub proof fn lemma_parse_solution_text(order: Seq<usize>)
    ensures
        parse_order(order_text(order)) == Some(order),
{
    let ws = words_of(order_text(order));
    if order.len() == 0 {
        assert(ws =~= Seq::<Seq<char>>::empty());
        assert(ws.map_values(|w: Seq<char>| usize_word(w)->0) =~= order);
    } else {
        lemma_order_pieces(order);
        lemma_decimal_digits(order.last() as nat);
        assert(ws =~= decimal_words(order));
        assert forall|i: int| 0 <= i < ws.len() implies usize_word(#[trigger] ws[i]) == Some(
            order[i],
        ) by {
            lemma_decimal_word(order[i]);
        }
        assert(ws.map_values(|w: Seq<char>| usize_word(w)->0) =~= order);
    }
}

/// The decimal notation of a job number reads back as that number.
proof fn lemma_decimal_word(n: usize)
    ensures
        usize_word(decimal_digits(n as nat)) == Some(n),
{
    lemma_decimal_digits(n as nat);
    let d = decimal_digits(n as nat);
    assert(is_digit(d[0]));
    assert(unsigned_digits(d) == d);
}

/// The decimal notation of `n` is a non-empty run of digits that denotes `n`.
proof fn lemma_decimal_digits(n: nat)
    ensures
        decimal_digits(n).len() >= 1,
        all_digits(decimal_digits(n)),
        digits_value(decimal_digits(n)) == n,
        forall|i: int| 0 <= i < decimal_digits(n).len() ==> !is_whitespace(
            #[trigger] decimal_digits(n)[i],
        ),
    decreases n,
{
    let c = digit_char(n % 10);
    assert((c as u32) == (n % 10) + 48);
    let dd = decimal_digits(n);
    assert(dd.last() == c);
    if n < 10 {
        assert(dd.drop_last() =~= Seq::<char>::empty());
        assert(digits_value(dd) == digits_value(dd.drop_last()) * 10 + n % 10);
    } else {
        lemma_decimal_digits(n / 10);
        let d = decimal_digits(n / 10);
        assert(dd.drop_last() =~= d);
        assert(digits_value(dd) == (n / 10) * 10 + n % 10);
        assert(n == (n / 10) * 10 + n % 10) by (nonlinear_arith);
    }
}

/// Appending a run without whitespace extends the word in progress.
proof fn lemma_pieces_append_run(t: Seq<char>, w: Seq<char>)
    requires
        forall|i: int| 0 <= i < w.len() ==> !is_whitespace(#[trigger] w[i]),
    ensures
        word_pieces(t + w) == (word_pieces(t).0, word_pieces(t).1 + w),
    decreases w.len(),
{
    if w.len() == 0 {
        assert(t + w =~= t);
        assert(word_pieces(t).1 + w =~= word_pieces(t).1);
    } else {
        let w0 = w.drop_last();
        lemma_pieces_append_run(t, w0);
        assert((t + w).drop_last() =~= t + w0);
        assert((t + w).last() == w.last());
        assert(word_pieces(t).1 + w =~= (word_pieces(t).1 + w0).push(w.last()));
    }
}

/// The words of a written schedule: all but the last are done, the last one
/// is in progress.
proof fn lemma_order_pieces(order: Seq<usize>)
    requires
        order.len() >= 1,
    ensures
        word_pieces(order_text(order)) == (
            decimal_words(order.drop_last()),
            decimal_digits(order.last() as nat),
        ),
    decreases order.len(),
{
    let d = decimal_digits(order.last() as nat);
    lemma_decimal_digits(order.last() as nat);
    if order.len() == 1 {
        lemma_pieces_append_run(Seq::empty(), d);
        assert(Seq::<char>::empty() + d =~= d);
        assert(decimal_words(order.drop_last()) =~= Seq::<Seq<char>>::empty());
        assert(Seq::<char>::empty() + d =~= d);
    } else {
        let front = order.drop_last();
        lemma_order_pieces(front);
        let t = order_text(front);
        let ts = t + seq![' '];
        assert(ts.drop_last() =~= t);
        assert(is_whitespace(' '));
        lemma_decimal_digits(front.last() as nat);
        assert(word_pieces(ts) == (
            decimal_words(front.drop_last()).push(decimal_digits(front.last() as nat)),
            Seq::<char>::empty(),
        ));
        assert(decimal_words(front.drop_last()).push(decimal_digits(front.last() as nat))
            =~= decimal_words(front));
        lemma_pieces_append_run(ts, d);
        assert(Seq::<char>::empty() + d =~= d);
    }
}

} // verus!
