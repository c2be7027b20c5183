//! The one-line report that a benchmark run prints, and how the harness reads it back.
//!
//! A child process prints `LOGMARK: <benchmark> <target> <elapsed> <ops> <memory>`
//! on a line of its own. The parent takes the first line of the child's output
//! that starts with `LOGMARK: `, splits the rest at white space, and, when there
//! are at least five fields, keeps `<benchmark>_<target>` as the run's name and the
//! next three fields as the measured numbers, still as text.

use vstd::prelude::*;
use crate::logger::LoggerKind;
use crate::target::OutputTarget;
use crate::text::{
    fields, is_space, lemma_fields_of_word, lemma_fields_of_word_then, lemma_line_len_exact,
    lemma_lines_append, lemma_lines_of_line_then, lemma_split_joined_name, lines, no_space,
    split_fields, split_run_name, strip_cr,
};

verus! {

/// The marker that starts a report line.
pub open spec fn report_prefix() -> Seq<char> {
    seq!['L', 'O', 'G', 'M', 'A', 'R', 'K', ':', ' ']
}

/// Whether a line is a report line.
pub open spec fn is_report_line(l: Seq<char>) -> bool {
    l.len() >= report_prefix().len() && l.take(report_prefix().len() as int) == report_prefix()
}

/// The first report line among `ls`, if any.
pub open spec fn first_report_line(ls: Seq<Seq<char>>) -> Option<Seq<char>>
    decreases ls.len(),
{
    if ls.len() == 0 {
        None
    } else if is_report_line(ls[0]) {
        Some(ls[0])
    } else {
        first_report_line(ls.drop_first())
    }
}

/// What the harness reads from a child's whole output: the run's name and the
/// texts of the elapsed seconds, the operations per second and the memory in MiB.
/// `None` where no line is a report line, or where the first one holds fewer
/// than five fields after the marker.
pub open spec fn report_of(output: Seq<char>) -> Option<(Seq<char>, Seq<char>, Seq<char>, Seq<char>)> {
    match first_report_line(lines(output)) {
        None => None,
        Some(l) => {
            let f = fields(l.skip(report_prefix().len() as int));
            if f.len() >= 5 {
                Some((f[0] + seq!['_'] + f[1], f[2], f[3], f[4]))
            } else {
                None
            }
        },
    }
}

/// The report line of a run, without its line end.
pub open spec fn report_text(
    logger: LoggerKind,
    target: OutputTarget,
    elapsed: Seq<char>,
    ops: Seq<char>,
    memory: Seq<char>,
) -> Seq<char> {
    report_prefix() + logger.name() + seq![' '] + target.name() + seq![' '] + elapsed + seq![' ']
        + ops + seq![' '] + memory
}

/// A report as the harness reads it: the run's name and the three measured
/// numbers, still as text.
pub struct Report {
    pub name: Vec<char>,
    pub elapsed: Vec<char>,
    pub ops: Vec<char>,
    pub memory: Vec<char>,
}

fn push_str_chars(out: &mut Vec<char>, s: &str)
    ensures
        final(out)@ == old(out)@ + s@,
{
    let n = s.unicode_len();
    let mut i: usize = 0;
    while i < n
        invariant
            n == s@.len(),
            i <= n,
            out@ == old(out)@ + s@.take(i as int),
        decreases n - i,
    {
        out.push(s.get_char(i));
        i = i + 1;
        assert(out@ =~= old(out)@ + s@.take(i as int));
    }
    assert(s@.take(n as int) =~= s@);
}

fn push_chars(out: &mut Vec<char>, s: &[char])
    ensures
        final(out)@ == old(out)@ + s@,
{
    let n = s.len();
    let mut i: usize = 0;
    while i < n
        invariant
            n == s@.len(),
            i <= n,
            out@ == old(out)@ + s@.take(i as int),
        decreases n - i,
    {
        out.push(s[i]);
        i = i + 1;
        assert(out@ =~= old(out)@ + s@.take(i as int));
    }
    assert(s@.take(n as int) =~= s@);
}

/// The report line that a run prints, given its three measured numbers as text.
pub fn report_line(
    logger: LoggerKind,
    target: OutputTarget,
    elapsed: &[char],
    ops: &[char],
    memory: &[char],
) -> (line: Vec<char>)
    ensures
        line@ == report_text(logger, target, elapsed@, ops@, memory@),
{
    let mut line: Vec<char> = vec!['L', 'O', 'G', 'M', 'A', 'R', 'K', ':', ' '];
    push_str_chars(&mut line, logger.as_str());
    line.push(' ');
    push_str_chars(&mut line, target.as_str());
    line.push(' ');
    push_chars(&mut line, elapsed);
    line.push(' ');
    push_chars(&mut line, ops);
    line.push(' ');
    push_chars(&mut line, memory);
    line
}

/// Whether `s[start..end]` is a report line.
fn has_report_prefix(s: &[char], start: usize, end: usize) -> (r: bool)
    requires
        start <= end <= s@.len(),
    ensures
        r == is_report_line(s@.subrange(start as int, end as int)),
{
    let prefix: Vec<char> = vec!['L', 'O', 'G', 'M', 'A', 'R', 'K', ':', ' '];
    let ghost line = s@.subrange(start as int, end as int);
    if end - start < prefix.len() {
        return false;
    }
    let mut i: usize = 0;
    while i < prefix.len()
        invariant
            prefix@ == report_prefix(),
            start + prefix@.len() <= end <= s@.len(),
            line == s@.subrange(start as int, end as int),
            i <= prefix@.len(),
            forall|k: int| 0 <= k < i ==> line[k] == prefix@[k],
        decreases prefix.len() - i,
    {
        if s[start + i] != prefix[i] {
            assert(line.take(report_prefix().len() as int)[i as int] != report_prefix()[i as int]);
            return false;
        }
        i = i + 1;
    }
    assert(line.take(report_prefix().len() as int) =~= report_prefix());
    true
}

/// Reads the report out of a child's whole output, as the harness does.
pub fn parse_report(output: &[char]) -> (r: Option<Report>)
    ensures
        match r {
            None => report_of(output@) is None,
            Some(rep) => report_of(output@) == Some((rep.name@, rep.elapsed@, rep.ops@, rep.memory@)),
        },
{
    let n = output.len();
    let mut i: usize = 0;
    assert(output@.subrange(0, n as int) =~= output@);
    while i < n
        invariant
            i <= n == output@.len(),
            first_report_line(lines(output@)) == first_report_line(
                lines(output@.subrange(i as int, n as int)),
            ),
        decreases n - i,
    {
        let ghost rest = output@.subrange(i as int, n as int);
        let mut k: usize = i;
        while k < n && output[k] != '\n'
            invariant
                i <= k <= n == output@.len(),
                forall|m: int| i <= m < k ==> #[trigger] output@[m] != '\n',
            decreases n - k,
        {
            k = k + 1;
        }
        proof {
            assert forall|m: int| 0 <= m < k - i implies #[trigger] rest[m] != '\n' by {
                assert(rest[m] == output@[i + m]);
            }
            if k < n {
                assert(rest[k - i] == output@[k as int]);
            }
            lemma_line_len_exact(rest, (k - i) as nat);
        }
        let line_end: usize = if k < n && k > i && output[k - 1] == '\r' {
            k - 1
        } else {
            k
        };
        let ghost line = output@.subrange(i as int, line_end as int);
        proof {
            if k == n {
                assert(line =~= rest);
                assert(lines(rest) == seq![rest]);
                assert(seq![rest].drop_first() =~= Seq::<Seq<char>>::empty());
                assert(first_report_line(Seq::<Seq<char>>::empty()) is None);
            } else {
                assert(strip_cr(rest.take(k - i)) =~= line);
                assert(rest.skip(k - i + 1) =~= output@.subrange(k + 1, n as int));
                assert(lines(rest) == seq![line] + lines(output@.subrange(k + 1, n as int)));
                assert((seq![line] + lines(output@.subrange(k + 1, n as int))).drop_first()
                    =~= lines(output@.subrange(k + 1, n as int)));
            }
        }
        if has_report_prefix(output, i, line_end) {
            let mut f = split_fields(output, i + 9, line_end);
            proof {
                assert(line.skip(report_prefix().len() as int) =~= output@.subrange(
                    i + 9,
                    line_end as int,
                ));
            }
            if f.len() < 5 {
                return None;
            }
            let ghost fv = f.deep_view();
            f.truncate(5);
            let memory = f.pop().unwrap();
            let ops = f.pop().unwrap();
            let elapsed = f.pop().unwrap();
            let mut target = f.pop().unwrap();
            let mut name = f.pop().unwrap();
            proof {
                assert(memory@ =~= fv[4]);
                assert(ops@ =~= fv[3]);
                assert(elapsed@ =~= fv[2]);
                assert(target@ =~= fv[1]);
                assert(name@ =~= fv[0]);
            }
            name.push('_');
            name.append(&mut target);
            return Some(Report { name, elapsed, ops, memory });
        }
        if k == n {
            return None;
        }
        i = k + 1;
    }
    assert(output@.subrange(i as int, n as int) =~= Seq::<char>::empty());
    None
}


/// The first report line of two runs of lines in a row: that of the first run, else that of the second.
pub proof fn lemma_first_report_line_append(a: Seq<Seq<char>>, b: Seq<Seq<char>>)
    ensures
        first_report_line(a + b) == match first_report_line(a) {
            Some(l) => Some(l),
            None => first_report_line(b),
        },
    decreases a.len(),
{
    if a.len() == 0 {
        assert(a + b =~= b);
    } else {
        assert((a + b)[0] == a[0]);
        assert((a + b).drop_first() =~= a.drop_first() + b);
        lemma_first_report_line_append(a.drop_first(), b);
    }
}

proof fn lemma_no_newline_concat(a: Seq<char>, b: Seq<char>)
    requires
        forall|i: int| 0 <= i < a.len() ==> #[trigger] a[i] != '\n',
        forall|i: int| 0 <= i < b.len() ==> #[trigger] b[i] != '\n',
    ensures
        forall|i: int| 0 <= i < (a + b).len() ==> #[trigger] (a + b)[i] != '\n',
{
    assert forall|i: int| 0 <= i < (a + b).len() implies #[trigger] (a + b)[i] != '\n' by {
        if i < a.len() {
            assert((a + b)[i] == a[i]);
        } else {
            assert((a + b)[i] == b[i - a.len()]);
        }
    }
}

proof fn lemma_word_has_no_newline(w: Seq<char>)
    requires
        no_space(w),
    ensures
        forall|i: int| 0 <= i < w.len() ==> #[trigger] w[i] != '\n',
{
    assert forall|i: int| 0 <= i < w.len() implies #[trigger] w[i] != '\n' by {
        assert(!is_space(w[i]));
    }
}

/// A report line holds no line end, and does not end in a carriage return.
proof fn lemma_report_text_is_one_line(
    logger: LoggerKind,
    target: OutputTarget,
    elapsed: Seq<char>,
    ops: Seq<char>,
    memory: Seq<char>,
)
    requires
        no_space(elapsed),
        no_space(ops),
        memory.len() > 0,
        no_space(memory),
    ensures
        forall|i: int|
            0 <= i < report_text(logger, target, elapsed, ops, memory).len() ==> #[trigger] report_text(
                logger,
                target,
                elapsed,
                ops,
                memory,
            )[i] != '\n',
        report_text(logger, target, elapsed, ops, memory).last() != '\r',
{
    let ln = logger.name();
    let tn = target.name();
    logger.lemma_name_is_word();
    target.lemma_name_is_word();
    let sp = seq![' '];
    lemma_word_has_no_newline(ln);
    lemma_word_has_no_newline(tn);
    lemma_word_has_no_newline(elapsed);
    lemma_word_has_no_newline(ops);
    lemma_word_has_no_newline(memory);
    assert(forall|i: int| 0 <= i < sp.len() ==> #[trigger] sp[i] != '\n');
    assert(forall|i: int|
        0 <= i < report_prefix().len() ==> #[trigger] report_prefix()[i] != '\n');
    let p1 = report_prefix() + ln;
    lemma_no_newline_concat(report_prefix(), ln);
    let p2 = p1 + sp;
    lemma_no_newline_concat(p1, sp);
    let p3 = p2 + tn;
    lemma_no_newline_concat(p2, tn);
    let p4 = p3 + sp;
    lemma_no_newline_concat(p3, sp);
    let p5 = p4 + elapsed;
    lemma_no_newline_concat(p4, elapsed);
    let p6 = p5 + sp;
    lemma_no_newline_concat(p5, sp);
    let p7 = p6 + ops;
    lemma_no_newline_concat(p6, ops);
    let p8 = p7 + sp;
    lemma_no_newline_concat(p7, sp);
    lemma_no_newline_concat(p8, memory);
    assert(report_text(logger, target, elapsed, ops, memory) == p8 + memory);
    assert((p8 + memory).last() == memory.last());
    assert(!is_space(memory[memory.len() - 1]));
}

/// After the marker, a report line splits into the benchmark, the target and the three numbers.
proof fn lemma_report_text_fields(
    logger: LoggerKind,
    target: OutputTarget,
    elapsed: Seq<char>,
    ops: Seq<char>,
    memory: Seq<char>,
)
    requires
        elapsed.len() > 0,
        no_space(elapsed),
        ops.len() > 0,
        no_space(ops),
        memory.len() > 0,
        no_space(memory),
    ensures
        fields(report_text(logger, target, elapsed, ops, memory).skip(report_prefix().len() as int))
            == seq![logger.name(), target.name(), elapsed, ops, memory],
{
    let ln = logger.name();
    let tn = target.name();
    logger.lemma_name_is_word();
    target.lemma_name_is_word();
    let sp = seq![' '];
    let body = ln + sp + tn + sp + elapsed + sp + ops + sp + memory;
    assert(report_text(logger, target, elapsed, ops, memory).skip(report_prefix().len() as int)
        =~= body);
    lemma_fields_of_word(memory);
    lemma_fields_of_word_then(ops, memory);
    let r3 = ops + sp + memory;
    lemma_fields_of_word_then(elapsed, r3);
    let r2 = elapsed + sp + r3;
    lemma_fields_of_word_then(tn, r2);
    let r1 = tn + sp + r2;
    lemma_fields_of_word_then(ln, r1);
    assert(ln + sp + r1 =~= body);
    assert(fields(body) =~= seq![ln, tn, elapsed, ops, memory]);
}

/// What a run prints is what the harness reads back. Whatever the child
/// printed before its report line (so long as no earlier line is itself a
/// report line) and whatever it printed after, the harness recovers the run's
/// name, `<benchmark>_<target>`, and the three numbers exactly as they were
/// printed, provided each of them is a non-empty token without white space.
pub proof fn lemma_report_round_trip(
    logger: LoggerKind,
    target: OutputTarget,
    elapsed: Seq<char>,
    ops: Seq<char>,
    memory: Seq<char>,
    before: Seq<char>,
    after: Seq<char>,
)
    requires
        elapsed.len() > 0,
        no_space(elapsed),
        ops.len() > 0,
        no_space(ops),
        memory.len() > 0,
        no_space(memory),
        before.len() == 0 || before.last() == '\n',
        first_report_line(lines(before)) is None,
    ensures
        report_of(before + report_text(logger, target, elapsed, ops, memory) + seq!['\n'] + after)
            == Some((logger.name() + seq!['_'] + target.name(), elapsed, ops, memory)),
{
    let line = report_text(logger, target, elapsed, ops, memory);
    lemma_report_text_is_one_line(logger, target, elapsed, ops, memory);
    lemma_report_text_fields(logger, target, elapsed, ops, memory);
    lemma_lines_of_line_then(line, after);
    lemma_lines_append(before, line + seq!['\n'] + after);
    assert(before + line + seq!['\n'] + after =~= before + (line + seq!['\n'] + after));
    lemma_first_report_line_append(lines(before), seq![line] + lines(after));
    assert(line.take(report_prefix().len() as int) =~= report_prefix());
    assert((seq![line] + lines(after))[0] == line);
}

/// The run name that a report carries splits back, at its last `_`, into the
/// benchmark's name and the target's name, as the per-target summaries need;
/// this holds also for benchmarks whose names hold `_` themselves.
pub proof fn lemma_run_name_splits(logger: LoggerKind, target: OutputTarget)
    ensures
        split_run_name(logger.name() + seq!['_'] + target.name()) == Some(
            (logger.name(), target.name()),
        ),
{
    target.lemma_name_is_word();
    lemma_split_joined_name(logger.name(), target.name());
}

} // verus!
