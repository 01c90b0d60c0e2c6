use vstd::prelude::*;

use crate::solver::schedule::matrix_view;
use crate::solver::text::{
    chars_of, lines_of, parse_u64_word, parse_usize_word, split_lines, split_words, u64_word,
    usize_word, views, words_of,
};

verus! {

/// A duration or an instant, in the time unit of the instance.
pub type Time = u64;

/// An instance of the permutation flow shop problem.
#[derive(Debug, Clone)]
pub struct Problem {
    pub jobs_number: usize,
    pub machines_number: usize,
    pub initial_seed: Option<u64>,
    pub upper_bound: Option<Time>,
    pub lower_bound: Option<Time>,
    /// One row per machine, one column per job.
    pub processing_times: Vec<Vec<Time>>,
}

/// The fewest jobs an instance has.
pub const MIN_JOBS_NUMBER: usize = 1;

/// The fewest machines an instance has.
pub const MIN_MACHINES_NUMBER: usize = 1;

/// Why a problem definition was refused.
#[derive(Debug, Clone, Copy, PartialEq, Eq, Structural)]
pub enum ProblemParseError {
    MissingParametersHeader,
    MissingParameters,
    WrongParameterCount,
    InvalidJobsNumber,
    NonPositiveJobsNumber,
    InvalidMachinesNumber,
    NonPositiveMachinesNumber,
    InvalidInitialSeed,
    InvalidUpperBound,
    InvalidLowerBound,
    MissingProcessingTimesHeader,
    MissingProcessingTimesLine,
    InvalidProcessingTime,
    WrongProcessingTimesWidth,
}

/// The message that describes a parse error.
pub open spec fn error_message(e: ProblemParseError) -> Seq<char> {
    match e {
        ProblemParseError::MissingParametersHeader => "Parameters header line was expected"@,
        ProblemParseError::MissingParameters => "Problem parameters were expected"@,
        ProblemParseError::WrongParameterCount => "Expected exactly 5 problem parameters"@,
        ProblemParseError::InvalidJobsNumber => "Parameter for jobs number should be an unsigned integer"@,
        ProblemParseError::NonPositiveJobsNumber => "Parameter for jobs number should be a positive number"@,
        ProblemParseError::InvalidMachinesNumber => "Parameter for machines number should be an unsigned integer"@,
        ProblemParseError::NonPositiveMachinesNumber => "Parameter for machines number should be a positive number"@,
        ProblemParseError::InvalidInitialSeed => "Parameter for initial seed should be an unsigned 64-bit integer or a hyphen"@,
        ProblemParseError::InvalidUpperBound => "Parameter for upper bound should be an unsigned integer or a hyphen"@,
        ProblemParseError::InvalidLowerBound => "Parameter for lower bound should be an unsigned integer or a hyphen"@,
        ProblemParseError::MissingProcessingTimesHeader => "Processing times header line was expected"@,
        ProblemParseError::MissingProcessingTimesLine => "Processing times line was expected"@,
        ProblemParseError::InvalidProcessingTime => "Processing times line should contain only unsigned integers"@,
        ProblemParseError::WrongProcessingTimesWidth => "Processing times line has different width than the number of jobs"@,
    }
}

impl ProblemParseError {
    /// The message that describes the error.
    pub fn message(&self) -> (r: &'static str)
        ensures
            r@ == error_message(*self),
    {
        match self {
            ProblemParseError::MissingParametersHeader => "Parameters header line was expected",
            ProblemParseError::MissingParameters => "Problem parameters were expected",
            ProblemParseError::WrongParameterCount => "Expected exactly 5 problem parameters",
            ProblemParseError::InvalidJobsNumber => "Parameter for jobs number should be an unsigned integer",
            ProblemParseError::NonPositiveJobsNumber => "Parameter for jobs number should be a positive number",
            ProblemParseError::InvalidMachinesNumber => "Parameter for machines number should be an unsigned integer",
            ProblemParseError::NonPositiveMachinesNumber => "Parameter for machines number should be a positive number",
            ProblemParseError::InvalidInitialSeed => "Parameter for initial seed should be an unsigned 64-bit integer or a hyphen",
            ProblemParseError::InvalidUpperBound => "Parameter for upper bound should be an unsigned integer or a hyphen",
            ProblemParseError::InvalidLowerBound => "Parameter for lower bound should be an unsigned integer or a hyphen",
            ProblemParseError::MissingProcessingTimesHeader => "Processing times header line was expected",
            ProblemParseError::MissingProcessingTimesLine => "Processing times line was expected",
            ProblemParseError::InvalidProcessingTime => "Processing times line should contain only unsigned integers",
            ProblemParseError::WrongProcessingTimesWidth => "Processing times line has different width than the number of jobs",
        }
    }
}

/// An optional parameter: a hyphen stands for none; `None` when the word is
/// neither a hyphen nor a `u64`.
pub open spec fn optional_word(word: Seq<char>) -> Option<Option<u64>> {
    if word == seq!['-'] {
        Some(None)
    } else {
        match u64_word(word) {
            Some(v) => Some(Some(v)),
            None => None,
        }
    }
}

/// The processing times on one line, which must have `jobs` of them.
pub open spec fn row_outcome(line: Seq<char>, jobs: nat) -> Result<Seq<u64>, ProblemParseError> {
    let ws = words_of(line);
    if exists|i: int| 0 <= i < ws.len() && #[trigger] u64_word(ws[i]) is None {
        Err(ProblemParseError::InvalidProcessingTime)
    } else if ws.len() != jobs {
        Err(ProblemParseError::WrongProcessingTimesWidth)
    } else {
        Ok(ws.map_values(|w: Seq<char>| u64_word(w)->0))
    }
}

/// The rows of processing times of the machines `m..machines`, which stand
/// on the lines from `3 + m` on.
pub open spec fn rows_outcome(lines: Seq<Seq<char>>, m: nat, machines: nat, jobs: nat) -> Result<
    Seq<Seq<u64>>,
    ProblemParseError,
>
    decreases machines - m,
{
    if m >= machines {
        Ok(Seq::empty())
    } else if lines.len() <= 3 + m {
        Err(ProblemParseError::MissingProcessingTimesLine)
    } else {
        match row_outcome(lines[(3 + m) as int], jobs) {
            Err(e) => Err(e),
            Ok(r) => match rows_outcome(lines, m + 1, machines, jobs) {
                Err(e) => Err(e),
                Ok(rest) => Ok(seq![r] + rest),
            },
        }
    }
}

/// The rows read from the lines from `3 + m` on are those lines read one by
/// one: row `i` is what line `3 + m + i` gives.
proof fn lemma_rows_by_line(lines: Seq<Seq<char>>, m: nat, machines: nat, jobs: nat)
    requires
        m <= machines,
    ensures
        rows_outcome(lines, m, machines, jobs) matches Ok(rows) ==> {
            &&& rows.len() == machines - m
            &&& forall|i: int| 0 <= i < rows.len() ==> row_outcome(lines[3 + m + i], jobs) == Ok::<
                Seq<u64>,
                ProblemParseError,
            >(#[trigger] rows[i])
        },
    decreases machines - m,
{
    if m < machines {
        lemma_rows_by_line(lines, m + 1, machines, jobs);
        match rows_outcome(lines, m, machines, jobs) {
            Ok(rows) => {
                let r = row_outcome(lines[(3 + m) as int], jobs)->Ok_0;
                let rest = rows_outcome(lines, m + 1, machines, jobs)->Ok_0;
                assert(rows == seq![r] + rest);
                assert forall|i: int| 0 <= i < rows.len() implies row_outcome(lines[3 + m + i], jobs) == Ok::<
                    Seq<u64>,
                    ProblemParseError,
                >(#[trigger] rows[i]) by {
                    if i > 0 {
                        assert(rows[i] == rest[i - 1]);
                        assert(3 + (m + 1) + (i - 1) == 3 + m + i);
                    }
                }
            },
            Err(_) => {},
        }
    }
}

/// A problem is read word by word: the parameters line has five words, which
/// give in turn the number of jobs, the number of machines, the seed, the
/// upper bound and the lower bound; and the time of job `j` on machine `m` is
/// the value of word `j` on line `3 + m`, which has one word per job.
pub proof fn lemma_parse_reads_each_word(text: Seq<char>)
    ensures
        parse_problem(text) matches Ok(v) ==> {
            &&& words_of(lines_of(text)[1]).len() == 5
            &&& usize_word(words_of(lines_of(text)[1])[0]) == Some(v.0)
            &&& usize_word(words_of(lines_of(text)[1])[1]) == Some(v.1)
            &&& optional_word(words_of(lines_of(text)[1])[2]) == Some(v.2)
            &&& optional_word(words_of(lines_of(text)[1])[3]) == Some(v.3)
            &&& optional_word(words_of(lines_of(text)[1])[4]) == Some(v.4)
            &&& v.5.len() == v.1
            &&& forall|m: int| 0 <= m < v.1 ==> #[trigger] words_of(lines_of(text)[3 + m]).len() == v.0
            &&& forall|m: int, j: int|
                0 <= m < v.1 && 0 <= j < v.0 ==> u64_word(words_of(lines_of(text)[3 + m])[j]) == Some(
                    #[trigger] v.5[m][j],
                )
        },
{
    let ls = lines_of(text);
    if ls.len() >= 3 {
        let ps = words_of(ls[1]);
        if ps.len() == 5 {
            match (usize_word(ps[0]), usize_word(ps[1])) {
                (Some(jobs), Some(machines)) => {
                    lemma_rows_by_line(ls, 0, machines as nat, jobs as nat);
                    match parse_problem(text) {
                        Ok(v) => {
                            assert(v.0 == jobs && v.1 == machines);
                            let rows = v.5;
                            assert(rows_outcome(ls, 0, machines as nat, jobs as nat) == Ok::<
                                Seq<Seq<u64>>,
                                ProblemParseError,
                            >(rows));
                            assert forall|m: int| 0 <= m < v.1 implies #[trigger] words_of(lines_of(text)[3 + m]).len() == v.0 by {
                                assert(row_outcome(ls[3 + 0 + m], jobs as nat) == Ok::<Seq<u64>, ProblemParseError>(rows[m]));
                                assert(3 + 0 + m == 3 + m);
                            }
                            assert forall|m: int, j: int| 0 <= m < v.1 && 0 <= j < v.0 implies u64_word(
                                words_of(lines_of(text)[3 + m])[j],
                            ) == Some(#[trigger] v.5[m][j]) by {
                                assert(row_outcome(ls[3 + 0 + m], jobs as nat) == Ok::<Seq<u64>, ProblemParseError>(rows[m]));
                                assert(3 + 0 + m == 3 + m);
                                let ws = words_of(ls[3 + m]);
                                if u64_word(ws[j]) is None {
                                    assert(row_outcome(ls[3 + m], jobs as nat) is Err);
                                }
                            }
                        },
                        Err(_) => {},
                    }
                },
                _ => {},
            }
        }
    }
}

/// The number of machines that the parameters line `line` gives, 0 where it
/// gives none.
pub open spec fn declared_machines(line: Seq<char>) -> nat {
    let ps = words_of(line);
    if ps.len() >= 2 {
        match usize_word(ps[1]) {
            Some(m) => m as nat,
            None => 0,
        }
    } else {
        0
    }
}

/// The rows read from two sequences of lines that agree on the lines of the
/// rows are the same.
proof fn lemma_rows_same_lines(a: Seq<Seq<char>>, b: Seq<Seq<char>>, m: nat, machines: nat, jobs: nat)
    requires
        a.len() >= 3 + machines,
        b.len() >= 3 + machines,
        forall|i: int| 3 + m <= i < 3 + machines ==> #[trigger] a[i] == b[i],
    ensures
        rows_outcome(a, m, machines, jobs) == rows_outcome(b, m, machines, jobs),
    decreases machines - m,
{
    if m < machines {
        assert(a[(3 + m) as int] == b[(3 + m) as int]);
        lemma_rows_same_lines(a, b, m + 1, machines, jobs);
    }
}

/// A problem definition is read from its parameters line and its lines of
/// processing times alone: the two header lines, and whatever follows the
/// rows, change nothing (the outcome, error or problem, is the same).
pub proof fn lemma_parse_ignores_headers_and_trailing_lines(a: Seq<char>, b: Seq<char>)
    requires
        lines_of(a).len() >= 3 + declared_machines(lines_of(a)[1]),
        lines_of(b).len() >= 3 + declared_machines(lines_of(a)[1]),
        lines_of(a)[1] == lines_of(b)[1],
        forall|i: int|
            3 <= i < 3 + declared_machines(lines_of(a)[1]) ==> #[trigger] lines_of(a)[i] == lines_of(b)[i],
    ensures
        parse_problem(a) == parse_problem(b),
{
    let la = lines_of(a);
    let lb = lines_of(b);
    let ps = words_of(la[1]);
    if ps.len() == 5 {
        match usize_word(ps[1]) {
            Some(machines) => {
                match usize_word(ps[0]) {
                    Some(jobs) => {
                        lemma_rows_same_lines(la, lb, 0, machines as nat, jobs as nat);
                    },
                    None => {},
                }
            },
            None => {},
        }
    }
}

/// The fields of a problem definition: a header line; a line with the
/// number of jobs and of machines (both positive), the seed, the upper and
/// the lower bound (each a hyphen or a number); a header line; and one line
/// of processing times per machine.
pub open spec fn parse_problem(text: Seq<char>) -> Result<
    (usize, usize, Option<u64>, Option<u64>, Option<u64>, Seq<Seq<u64>>),
    ProblemParseError,
> {
    let ls = lines_of(text);
    if ls.len() < 1 {
        Err(ProblemParseError::MissingParametersHeader)
    } else if ls.len() < 2 {
        Err(ProblemParseError::MissingParameters)
    } else {
        let ps = words_of(ls[1]);
        if ps.len() != 5 {
            Err(ProblemParseError::WrongParameterCount)
        } else {
            match usize_word(ps[0]) {
                None => Err(ProblemParseError::InvalidJobsNumber),
                Some(jobs) => if jobs < 1 {
                    Err(ProblemParseError::NonPositiveJobsNumber)
                } else {
                    match usize_word(ps[1]) {
                        None => Err(ProblemParseError::InvalidMachinesNumber),
                        Some(machines) => if machines < 1 {
                            Err(ProblemParseError::NonPositiveMachinesNumber)
                        } else {
                            match optional_word(ps[2]) {
                                None => Err(ProblemParseError::InvalidInitialSeed),
                                Some(seed) => match optional_word(ps[3]) {
                                    None => Err(ProblemParseError::InvalidUpperBound),
                                    Some(upper) => match optional_word(ps[4]) {
                                        None => Err(ProblemParseError::InvalidLowerBound),
                                        Some(lower) => if ls.len() < 3 {
                                            Err(ProblemParseError::MissingProcessingTimesHeader)
                                        } else {
                                            match rows_outcome(ls, 0, machines as nat, jobs as nat) {
                                                Err(e) => Err(e),
                                                Ok(rows) => Ok((jobs, machines, seed, upper, lower, rows)),
                                            }
                                        },
                                    },
                                },
                            }
                        },
                    }
                },
            }
        }
    }
}

/// The lines from the fourth on hold, in order, the rows `rows`.
pub open spec fn rows_parsed(lines: Seq<Seq<char>>, jobs: nat, rows: Seq<Seq<u64>>) -> bool {
    forall|k: int|
        0 <= k < rows.len() ==> lines.len() > 3 + k && row_outcome(lines[3 + k], jobs) == Ok::<
            Seq<u64>,
            ProblemParseError,
        >(#[trigger] rows[k])
}

/// Rows that parsed well can be taken out of the front of the outcome.
pub proof fn lemma_rows_prefix(lines: Seq<Seq<char>>, j: nat, m: nat, machines: nat, jobs: nat, rows: Seq<Seq<u64>>)
    requires
        j <= m <= machines,
        rows.len() == m,
        rows_parsed(lines, jobs, rows),
    ensures
        rows_outcome(lines, j, machines, jobs) == (match rows_outcome(lines, m, machines, jobs) {
            Ok(rest) => Ok(rows.subrange(j as int, m as int) + rest),
            Err(e) => Err(e),
        }),
    decreases m - j,
{
    if j < m {
        lemma_rows_prefix(lines, j + 1, m, machines, jobs, rows);
        assert(row_outcome(lines[(3 + j) as int], jobs) == Ok::<Seq<u64>, ProblemParseError>(rows[j as int]));
        match rows_outcome(lines, m, machines, jobs) {
            Ok(rest) => {
                assert(seq![rows[j as int]] + (rows.subrange((j + 1) as int, m as int) + rest) =~= rows.subrange(j as int, m as int) + rest);
            },
            Err(e) => {},
        }
    } else {
        match rows_outcome(lines, m, machines, jobs) {
            Ok(rest) => {
                assert(rows.subrange(j as int, m as int) + rest =~= rest);
            },
            Err(e) => {},
        }
    }
}

/// An optional parameter.
fn parse_optional(word: &Vec<char>) -> (r: Option<Option<u64>>)
    ensures
        r == optional_word(word@),
{
    if word.len() == 1 && word[0] == '-' {
        proof {
            assert(word@ =~= seq!['-']);
        }
        Some(None)
    } else {
        proof {
            if word@ == seq!['-'] {
                assert(word@.len() == 1 && word@[0] == '-');
            }
        }
        match parse_u64_word(word) {
            Some(v) => Some(Some(v)),
            None => None,
        }
    }
}

/// The processing times on one line.
fn parse_row(line: &Vec<char>, jobs: usize) -> (r: Result<Vec<Time>, ProblemParseError>)
    ensures
        match r {
            Ok(row) => row_outcome(line@, jobs as nat) == Ok::<Seq<u64>, ProblemParseError>(row@),
            Err(e) => row_outcome(line@, jobs as nat) == Err::<Seq<u64>, ProblemParseError>(e),
        },
{
    let words = split_words(line);
    let ghost ws = words_of(line@);
    let mut row: Vec<Time> = Vec::new();
    let mut i: usize = 0;
    while i < words.len()
        invariant
            views(words@) == ws,
            ws == words_of(line@),
            i <= ws.len(),
            row@.len() == i,
            forall|k: int| 0 <= k < i ==> u64_word(ws[k]) == Some(#[trigger] row@[k]),
        decreases ws.len() - i,
    {
        proof {
            assert(words@[i as int]@ == ws[i as int]);
        }
        match parse_u64_word(&words[i]) {
            Some(v) => {
                row.push(v);
            },
            None => {
                return Err(ProblemParseError::InvalidProcessingTime);
            },
        }
        i += 1;
    }
    proof {
        assert(!exists|k: int| 0 <= k < ws.len() && #[trigger] u64_word(ws[k]) is None) by {
            assert forall|k: int| 0 <= k < ws.len() implies !(#[trigger] u64_word(ws[k]) is None) by {
                assert(u64_word(ws[k]) == Some(row@[k]));
            }
        }
    }
    if row.len() != jobs {
        return Err(ProblemParseError::WrongProcessingTimesWidth);
    }
    proof {
        assert(row@ =~= ws.map_values(|w: Seq<char>| u64_word(w)->0));
    }
    Ok(row)
}

impl Problem {
    /// Reads a problem definition (see `parse_problem` for its layout).
    pub fn parse(source: &str) -> (r: Result<Problem, ProblemParseError>)
        ensures
            match r {
                Ok(p) => parse_problem(source@) == Ok::<
                    (usize, usize, Option<u64>, Option<u64>, Option<u64>, Seq<Seq<u64>>),
                    ProblemParseError,
                >(
                    (
                        p.jobs_number,
                        p.machines_number,
                        p.initial_seed,
                        p.upper_bound,
                        p.lower_bound,
                        matrix_view(p.processing_times@),
                    ),
                ),
                Err(e) => parse_problem(source@) == Err::<
                    (usize, usize, Option<u64>, Option<u64>, Option<u64>, Seq<Seq<u64>>),
                    ProblemParseError,
                >(e),
            },
            r matches Ok(p) ==> {
                &&& usize_word(words_of(lines_of(source@)[1])[0]) == Some(p.jobs_number)
                &&& usize_word(words_of(lines_of(source@)[1])[1]) == Some(p.machines_number)
                &&& optional_word(words_of(lines_of(source@)[1])[2]) == Some(p.initial_seed)
                &&& optional_word(words_of(lines_of(source@)[1])[3]) == Some(p.upper_bound)
                &&& optional_word(words_of(lines_of(source@)[1])[4]) == Some(p.lower_bound)
            },
    {
        let chars = chars_of(source);
        let lines = split_lines(&chars);
        let ghost ls = lines_of(source@);
        proof {
            assert(views(lines@) == ls);
        }
        if lines.len() < 1 {
            return Err(ProblemParseError::MissingParametersHeader);
        }
        if lines.len() < 2 {
            return Err(ProblemParseError::MissingParameters);
        }
        proof {
            assert(lines@[1]@ == ls[1]);
        }
        let parameters = split_words(&lines[1]);
        let ghost ps = words_of(ls[1]);
        if parameters.len() != 5 {
            return Err(ProblemParseError::WrongParameterCount);
        }
        proof {
            assert(parameters@[0]@ == ps[0]);
            assert(parameters@[1]@ == ps[1]);
            assert(parameters@[2]@ == ps[2]);
            assert(parameters@[3]@ == ps[3]);
            assert(parameters@[4]@ == ps[4]);
        }
        let jobs_number = match parse_usize_word(&parameters[0]) {
            Some(v) => v,
            None => {
                return Err(ProblemParseError::InvalidJobsNumber);
            },
        };
        if jobs_number < 1 {
            return Err(ProblemParseError::NonPositiveJobsNumber);
        }
        let machines_number = match parse_usize_word(&parameters[1]) {
            Some(v) => v,
            None => {
                return Err(ProblemParseError::InvalidMachinesNumber);
            },
        };
        if machines_number < 1 {
            return Err(ProblemParseError::NonPositiveMachinesNumber);
        }
        let initial_seed = match parse_optional(&parameters[2]) {
            Some(v) => v,
            None => {
                return Err(ProblemParseError::InvalidInitialSeed);
            },
        };
        let upper_bound = match parse_optional(&parameters[3]) {
            Some(v) => v,
            None => {
                return Err(ProblemParseError::InvalidUpperBound);
            },
        };
        let lower_bound = match parse_optional(&parameters[4]) {
            Some(v) => v,
            None => {
                return Err(ProblemParseError::InvalidLowerBound);
            },
        };
        if lines.len() < 3 {
            return Err(ProblemParseError::MissingProcessingTimesHeader);
        }
        let mut processing_times: Vec<Vec<Time>> = Vec::new();
        let mut m: usize = 0;
        proof {
            assert(parse_problem(source@) == match rows_outcome(ls, 0, machines_number as nat, jobs_number as nat) {
                Err(e) => Err(e),
                Ok(rows) => Ok((jobs_number, machines_number, initial_seed, upper_bound, lower_bound, rows)),
            });
        }
        while m < machines_number
            invariant
                parse_problem(source@) == match rows_outcome(ls, 0, machines_number as nat, jobs_number as nat) {
                    Err(e) => Err(e),
                    Ok(rows) => Ok((jobs_number, machines_number, initial_seed, upper_bound, lower_bound, rows)),
                },
                views(lines@) == ls,
                ls.len() >= 3,
                m <= machines_number,
                processing_times@.len() == m,
                rows_parsed(ls, jobs_number as nat, matrix_view(processing_times@)),
            decreases machines_number - m,
        {
            if m >= lines.len() - 3 {
                proof {
                    assert(rows_outcome(ls, m as nat, machines_number as nat, jobs_number as nat) == Err::<Seq<Seq<u64>>, ProblemParseError>(ProblemParseError::MissingProcessingTimesLine));
                    lemma_rows_prefix(ls, 0, m as nat, machines_number as nat, jobs_number as nat, matrix_view(processing_times@));
                }
                return Err(ProblemParseError::MissingProcessingTimesLine);
            }
            proof {
                assert(lines@[m + 3]@ == ls[m + 3]);
            }
            match parse_row(&lines[m + 3], jobs_number) {
                Ok(row) => {
                    let ghost before = matrix_view(processing_times@);
                    processing_times.push(row);
                    proof {
                        assert(matrix_view(processing_times@) =~= before.push(row@));
                        assert forall|k: int| 0 <= k < m + 1 implies ls.len() > 3 + k && row_outcome(ls[3 + k], jobs_number as nat)
                            == Ok::<Seq<u64>, ProblemParseError>(#[trigger] matrix_view(processing_times@)[k]) by {
                            if k < m {
                                assert(matrix_view(processing_times@)[k] == before[k]);
                            }
                        }
                    }
                },
                Err(e) => {
                    proof {
                        assert(rows_outcome(ls, m as nat, machines_number as nat, jobs_number as nat) == Err::<Seq<Seq<u64>>, ProblemParseError>(e));
                        lemma_rows_prefix(ls, 0, m as nat, machines_number as nat, jobs_number as nat, matrix_view(processing_times@));
                    }
                    return Err(e);
                },
            }
            m += 1;
        }
        proof {
            lemma_rows_prefix(ls, 0, m as nat, machines_number as nat, jobs_number as nat, matrix_view(processing_times@));
            assert(matrix_view(processing_times@).subrange(0, m as int) + Seq::<Seq<u64>>::empty() =~= matrix_view(processing_times@));
            lemma_parse_reads_each_word(source@);
        }
        Ok(
            Problem {
                jobs_number,
                machines_number,
                initial_seed,
                upper_bound,
                lower_bound,
                processing_times,
            },
        )
    }

    /// The instance has at least one job and one machine.
    pub fn is_valid(&self) -> (r: bool)
        ensures
            r == (self.jobs_number >= MIN_JOBS_NUMBER && self.machines_number >= MIN_MACHINES_NUMBER),
    {
        (self.jobs_number >= MIN_JOBS_NUMBER) && (self.machines_number >= MIN_MACHINES_NUMBER)
    }
}

} // verus!
