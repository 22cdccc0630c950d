use vstd::prelude::*;

use crate::parser::{
    lemma_lex_scan, lemma_scan_trim, lex_start, scan_of, scan_start, scan_step, split_line, split_words,
    unmatched_quote_message, Scan,
};
use crate::text::{
    all_space, chars_of, is_space, join, lemma_trim_idempotent, lemma_trim_padded, string_of, trim,
    trim_bounds, trim_str,
};

verus! {

/// The state of splitting a line at its pipes: the finished stages, the text
/// of the stage being read, the quoting, and whether an empty stage was met.
pub struct Stages {
    pub stages: Seq<Seq<char>>,
    pub current: Seq<char>,
    pub scan: Scan,
    pub failed: bool,
}

/// The state before any character.
pub open spec fn stages_start() -> Stages {
    Stages { stages: seq![], current: seq![], scan: scan_start(), failed: false }
}

/// Splitting at pipes over one character: a `|` outside quotes and not
/// escaped ends the current stage, which must not be blank; every other
/// character, quotes and backslashes too, is kept in the stage.
pub open spec fn stages_step(st: Stages, c: char) -> Stages {
    let scan = scan_step(st.scan, c);
    if st.failed {
        st
    } else if !st.scan.escape && st.scan.quote is None && c == '|' {
        if trim(st.current).len() == 0 {
            Stages { stages: st.stages, current: st.current, scan, failed: true }
        } else {
            Stages { stages: st.stages.push(trim(st.current)), current: seq![], scan, failed: false }
        }
    } else {
        Stages { stages: st.stages, current: st.current.push(c), scan, failed: false }
    }
}

/// Splitting `s` at its pipes from the state `st`.
pub open spec fn stages_from(st: Stages, s: Seq<char>) -> Stages
    decreases s.len(),
{
    if s.len() == 0 {
        st
    } else {
        stages_step(stages_from(st, s.drop_last()), s.last())
    }
}

/// Why a line does not split into pipeline stages.
pub enum StageError {
    EmptyStage,
    UnmatchedQuote,
}

/// The message for each `StageError`.
pub open spec fn stage_error_message(e: StageError) -> Seq<char> {
    match e {
        StageError::EmptyStage => empty_stage_message(),
        StageError::UnmatchedQuote => unmatched_quote_message(),
    }
}

/// The message of a pipeline with a blank stage.
pub open spec fn empty_stage_message() -> Seq<char> {
    "empty command in pipeline"@
}

/// The trimmed stages of the line `s`, or why there are none.
pub open spec fn split_stages(s: Seq<char>) -> Result<Seq<Seq<char>>, StageError> {
    let st = stages_from(stages_start(), s);
    if st.failed {
        Err(StageError::EmptyStage)
    } else if st.scan.quote is Some {
        Err(StageError::UnmatchedQuote)
    } else if trim(st.current).len() == 0 {
        Err(StageError::EmptyStage)
    } else {
        Ok(st.stages.push(trim(st.current)))
    }
}

/// The words of each stage, or `None` when a stage leaves a quote open.
pub open spec fn stage_words(stages: Seq<Seq<char>>) -> Option<Seq<Seq<Seq<char>>>>
    decreases stages.len(),
{
    if stages.len() == 0 {
        Some(seq![])
    } else {
        match (stage_words(stages.drop_last()), split_words(trim(stages.last()))) {
            (Some(ws), Some(w)) => Some(ws.push(w)),
            _ => None,
        }
    }
}

/// Splits a line at the pipes that stand outside quotes and are not escaped,
/// into trimmed stages, each not blank.
pub fn split_pipeline_stages(line: &str) -> (r: Result<Vec<String>, String>)
    ensures
        match split_stages(line@) {
            Ok(s) => r matches Ok(v) && v.deep_view() == s,
            Err(e) => r matches Err(m) && m@ == stage_error_message(e),
        },
{
    let chars = chars_of(line);
    let n = chars.len();
    let mut stages: Vec<String> = Vec::new();
    let mut current: Vec<char> = Vec::new();
    let mut quote: Option<char> = None;
    let mut i: usize = 0;
    assert(chars@.take(0) =~= Seq::<char>::empty());
    while i < n
        invariant
            n == chars.len(),
            chars@ == line@,
            i <= n,
            ({
                let st = stages_from(stages_start(), chars@.take(i as int));
                &&& stages.deep_view() == st.stages
                &&& current@ == st.current
                &&& quote == st.scan.quote
                &&& !st.failed
                &&& (st.scan.escape ==> i == n)
            }),
        decreases n - i,
    {
        let c = chars[i];
        let ghost st = stages_from(stages_start(), chars@.take(i as int));
        assert(chars@.take(i + 1).drop_last() =~= chars@.take(i as int));
        match quote {
            Some(q) => {
                current.push(c);
                if c == q {
                    quote = None;
                }
                i += 1;
            },
            None => {
                if c == '\'' || c == '"' {
                    quote = Some(c);
                    current.push(c);
                    i += 1;
                } else if c == '\\' {
                    current.push(c);
                    if i + 1 < n {
                        let next = chars[i + 1];
                        current.push(next);
                        assert(chars@.take(i + 2).drop_last() =~= chars@.take(i + 1));
                        i += 2;
                    } else {
                        i += 1;
                    }
                } else if c == '|' {
                    let (a, b) = trim_bounds(&current);
                    if a == b {
                        proof {
                            assert(stages_from(stages_start(), chars@.take(i + 1)).failed);
                            lemma_failed_sticks(chars@.take(i + 1), chars@);
                        }
                        return Err(String::from_str("empty command in pipeline"));
                    }
                    let ghost prev = stages.deep_view();
                    stages.push(string_of(&current, a, b));
                    current = Vec::new();
                    assert(stages.deep_view() =~= prev.push(trim(st.current)));
                    i += 1;
                } else {
                    current.push(c);
                    i += 1;
                }
            },
        }
    }
    assert(chars@.take(n as int) =~= chars@);
    if quote.is_some() {
        return Err(String::from_str("unmatched quote"));
    }
    let (a, b) = trim_bounds(&current);
    if a == b {
        return Err(String::from_str("empty command in pipeline"));
    }
    let ghost prev = stages.deep_view();
    stages.push(string_of(&current, a, b));
    assert(stages.deep_view() =~= prev.push(trim(current@)));
    Ok(stages)
}

/// Splits a line into pipeline stages, and each stage into its words.
pub fn parse_pipeline(line: &str) -> (r: Result<Vec<Vec<String>>, String>)
    ensures
        match split_stages(line@) {
            Err(e) => r matches Err(m) && m@ == stage_error_message(e),
            Ok(s) => match stage_words(s) {
                Some(w) => r matches Ok(v) && v.deep_view() == w,
                None => r matches Err(m) && m@ == unmatched_quote_message(),
            },
        },
{
    let stage_texts = split_pipeline_stages(line)?;
    let ghost texts = stage_texts.deep_view();
    let mut result: Vec<Vec<String>> = Vec::new();
    let mut i: usize = 0;
    while i < stage_texts.len()
        invariant
            i <= stage_texts.len(),
            texts == stage_texts.deep_view(),
            split_stages(line@) == Ok::<Seq<Seq<char>>, StageError>(texts),
            stage_words(texts.take(i as int)) == Some(result.deep_view()),
        decreases stage_texts.len() - i,
    {
        assert(texts.take(i + 1).drop_last() =~= texts.take(i as int));
        assert(texts.take(i + 1).last() == texts[i as int]);
        let trimmed = trim_str(stage_texts[i].as_str());
        match split_line(trimmed.as_str()) {
            Ok(words) => {
                let ghost prev = result.deep_view();
                result.push(words);
                assert(result.deep_view() =~= prev.push(split_words(trim(texts[i as int])).unwrap()));
            },
            Err(e) => {
                proof {
                    assert(texts.take(i + 1).last() == texts[i as int]);
                    assert(stage_words(texts.take(i + 1)) is None);
                    lemma_stage_words_fail(texts.take(i + 1), texts);
                }
                return Err(e);
            },
        }
        i += 1;
    }
    assert(texts.take(stage_texts.len() as int) =~= texts);
    Ok(result)
}

proof fn lemma_stage_words_fail(p: Seq<Seq<char>>, s: Seq<Seq<char>>)
    requires
        p.len() <= s.len(),
        p == s.take(p.len() as int),
        stage_words(p) is None,
    ensures
        stage_words(s) is None,
    decreases s.len(),
{
    if s.len() > p.len() {
        assert(s.drop_last().take(p.len() as int) =~= p);
        lemma_stage_words_fail(p, s.drop_last());
    } else {
        assert(s =~= p);
    }
}

/// Whether every stage names a program, and there is at least one stage:
/// what must hold before a pipeline is started.
pub fn stages_runnable(stages: &[Vec<String>]) -> (r: bool)
    ensures
        r == (stages.len() > 0 && forall|i: int| 0 <= i < stages.len() ==> #[trigger] stages@[i].len() > 0),
{
    if stages.len() == 0 {
        return false;
    }
    let mut i: usize = 0;
    while i < stages.len()
        invariant
            i <= stages.len(),
            forall|j: int| 0 <= j < i ==> #[trigger] stages@[j].len() > 0,
        decreases stages.len() - i,
    {
        if stages[i].len() == 0 {
            return false;
        }
        i += 1;
    }
    true
}

/// Once an empty stage is met, the rest of the line changes nothing.
proof fn lemma_failed_sticks(p: Seq<char>, s: Seq<char>)
    requires
        p.len() <= s.len(),
        p == s.take(p.len() as int),
        stages_from(stages_start(), p).failed,
    ensures
        stages_from(stages_start(), s).failed,
    decreases s.len(),
{
    if s.len() > p.len() {
        assert(s.drop_last().take(p.len() as int) =~= p);
        lemma_failed_sticks(p, s.drop_last());
    } else {
        assert(s =~= p);
    }
}


/// A stage as `parse_pipeline` receives it: not blank, trimmed, and with
/// no quote left open.
pub open spec fn good_stage(x: Seq<char>) -> bool {
    &&& x.len() > 0
    &&& trim(x) == x
    &&& split_words(x) is Some
}

proof fn lemma_stages_inv(s: Seq<char>)
    ensures
        ({
            let st = stages_from(stages_start(), s);
            !st.failed ==> {
                &&& st.scan == scan_of(st.current)
                &&& forall|i: int| 0 <= i < st.stages.len() ==> #[trigger] good_stage(st.stages[i])
            }
        }),
    decreases s.len(),
{
    if s.len() > 0 {
        lemma_stages_inv(s.drop_last());
        let prev = stages_from(stages_start(), s.drop_last());
        let c = s.last();
        if !prev.failed {
            if !prev.scan.escape && prev.scan.quote is None && c == '|' {
                if trim(prev.current).len() > 0 {
                    let x = trim(prev.current);
                    lemma_trim_idempotent(prev.current);
                    lemma_scan_trim(prev.current);
                    lemma_lex_scan(lex_start(), x);
                    assert(good_stage(x));
                    let next = stages_from(stages_start(), s);
                    assert(next.stages == prev.stages.push(x));
                    assert forall|i: int| 0 <= i < next.stages.len() implies #[trigger] good_stage(next.stages[i]) by {
                        if i < prev.stages.len() {
                            assert(next.stages[i] == prev.stages[i]);
                        }
                    }
                    assert(scan_of(Seq::<char>::empty()) == scan_start());
                }
            } else {
                assert(prev.current.push(c).drop_last() =~= prev.current);
            }
        }
    }
}

pub proof fn lemma_good_stage_words(v: Seq<Seq<char>>)
    requires
        forall|i: int| 0 <= i < v.len() ==> #[trigger] good_stage(v[i]),
    ensures
        stage_words(v) is Some,
        stage_words(v).unwrap().len() == v.len(),
        forall|i: int| 0 <= i < v.len() ==> Some(#[trigger] stage_words(v).unwrap()[i]) == split_words(v[i]),
    decreases v.len(),
{
    if v.len() > 0 {
        assert forall|i: int| 0 <= i < v.len() - 1 implies #[trigger] good_stage(v.drop_last()[i]) by {
            assert(v.drop_last()[i] == v[i]);
        }
        lemma_good_stage_words(v.drop_last());
        assert(good_stage(v[v.len() - 1]));
        assert forall|i: int| 0 <= i < v.len() implies Some(#[trigger] stage_words(v).unwrap()[i]) == split_words(v[i]) by {
            if i < v.len() - 1 {
                assert(v.drop_last()[i] == v[i]);
            }
        }
    }
}

/// Every stage of a line that splits is not blank, is trimmed, and leaves
/// no quote open, so that splitting each stage into words succeeds:
/// `parse_pipeline` fails only where `split_pipeline_stages` fails.
pub proof fn law_stages_split_into_words(s: Seq<char>)
    ensures
        split_stages(s) matches Ok(v) ==> {
            &&& v.len() > 0
            &&& forall|i: int| 0 <= i < v.len() ==> #[trigger] good_stage(v[i])
            &&& stage_words(v) is Some
        },
{
    lemma_stages_inv(s);
    let st = stages_from(stages_start(), s);
    if let Ok(v) = split_stages(s) {
        let x = trim(st.current);
        lemma_trim_idempotent(st.current);
        lemma_scan_trim(st.current);
        lemma_lex_scan(lex_start(), x);
        assert(good_stage(x));
        assert forall|i: int| 0 <= i < v.len() implies #[trigger] good_stage(v[i]) by {
            if i < st.stages.len() {
                assert(v[i] == st.stages[i]);
            }
        }
        lemma_good_stage_words(v);
    }
}

/// Every `|` of `s` stands inside quotes or right after a backslash.
pub open spec fn no_unquoted_pipe(s: Seq<char>) -> bool {
    forall|i: int|
        0 <= i < s.len() && s[i] == '|' ==> {
            let q = #[trigger] scan_of(s.take(i));
            q.quote is Some || q.escape
        }
}

proof fn lemma_no_split(s: Seq<char>)
    requires
        no_unquoted_pipe(s),
    ensures
        stages_from(stages_start(), s) == (Stages {
            stages: seq![],
            current: s,
            scan: scan_of(s),
            failed: false,
        }),
    decreases s.len(),
{
    if s.len() > 0 {
        let p = s.drop_last();
        assert forall|i: int| 0 <= i < p.len() && p[i] == '|' implies {
            let q = #[trigger] scan_of(p.take(i));
            q.quote is Some || q.escape
        } by {
            assert(p.take(i) =~= s.take(i));
            assert(s[i] == '|');
        }
        lemma_no_split(p);
        assert(s.take(s.len() - 1) =~= p);
        if s.last() == '|' {
            assert(s[s.len() - 1] == '|');
        }
        assert(p.push(s.last()) =~= s);
    } else {
        assert(s =~= Seq::<char>::empty());
    }
}

/// A line whose every `|` is quoted or escaped is a pipeline of one stage,
/// the trimmed line, whose words `split_line` gives; it fails as
/// `split_line` does, with the same message.
pub proof fn law_single_stage(s: Seq<char>)
    requires
        no_unquoted_pipe(s),
    ensures
        trim(s).len() == 0 ==> split_stages(s) == Err::<Seq<Seq<char>>, StageError>(StageError::EmptyStage),
        trim(s).len() > 0 ==> match split_words(trim(s)) {
            Some(w) => split_stages(s) == Ok::<Seq<Seq<char>>, StageError>(seq![trim(s)]) && stage_words(
                seq![trim(s)],
            ) == Some(seq![w]),
            None => split_stages(s) == Err::<Seq<Seq<char>>, StageError>(StageError::UnmatchedQuote),
        },
{
    lemma_no_split(s);
    lemma_scan_trim(s);
    lemma_lex_scan(lex_start(), trim(s));
    lemma_trim_idempotent(s);
    if trim(s).len() == 0 {
        let (a, b) = crate::text::lemma_trim_parts(s);
        assert(s.take(a) + s.skip(b) =~= s);
        crate::parser::lemma_scan_spaces(scan_start(), s.take(a));
        crate::parser::lemma_scan_spaces(scan_start(), s);
        assert forall|i: int| 0 <= i < s.len() implies #[trigger] crate::text::is_space(s[i]) by {
            if i < a {
                assert(s[i] == s.take(a)[i]);
            } else {
                assert(s[i] == s.skip(b)[i - b]);
            }
        }
    } else {
        let t = trim(s);
        assert(seq![t].drop_last() =~= Seq::<Seq<char>>::empty());
        assert(seq![t].last() == t);
        assert(Seq::<Seq<char>>::empty().push(t) =~= seq![t]);
        assert(stage_words(Seq::<Seq<char>>::empty()) == Some(Seq::<Seq<Seq<char>>>::empty()));
        if let Some(w) = split_words(t) {
            assert(Seq::<Seq<Seq<char>>>::empty().push(w) =~= seq![w]);
        }
    }
}


/// Splitting at pipes of `a + b` runs over `a`, then over `b`.
pub proof fn lemma_stages_concat(st: Stages, a: Seq<char>, b: Seq<char>)
    ensures
        stages_from(st, a + b) == stages_from(stages_from(st, a), b),
    decreases b.len(),
{
    if b.len() == 0 {
        assert(a + b =~= a);
    } else {
        assert((a + b).drop_last() =~= a + b.drop_last());
        lemma_stages_concat(st, a, b.drop_last());
    }
}

proof fn lemma_no_split_from(st: Stages, x: Seq<char>)
    requires
        no_unquoted_pipe(x),
        st.scan == scan_start(),
        !st.failed,
    ensures
        stages_from(st, x) == (Stages {
            stages: st.stages,
            current: st.current + x,
            scan: scan_of(x),
            failed: false,
        }),
    decreases x.len(),
{
    if x.len() > 0 {
        let p = x.drop_last();
        assert forall|i: int| 0 <= i < p.len() && p[i] == '|' implies {
            let q = #[trigger] scan_of(p.take(i));
            q.quote is Some || q.escape
        } by {
            assert(p.take(i) =~= x.take(i));
            assert(x[i] == '|');
        }
        lemma_no_split_from(st, p);
        assert(x.take(x.len() - 1) =~= p);
        if x.last() == '|' {
            assert(x[x.len() - 1] == '|');
        }
        assert((st.current + p).push(x.last()) =~= st.current + x);
    } else {
        assert(st.current + x =~= st.current);
    }
}

/// A stage that can be written between pipes as it is: not blank,
/// trimmed, every `|` of it quoted or escaped, and ending outside quotes
/// with no escape pending.
pub open spec fn plain_stage(x: Seq<char>) -> bool {
    &&& x.len() > 0
    &&& trim(x) == x
    &&& no_unquoted_pipe(x)
    &&& scan_of(x) == scan_start()
}

/// The separator `" | "`.
pub open spec fn pipe_separator() -> Seq<char> {
    seq![' ', '|', ' ']
}

proof fn lemma_stages_join_run(xs: Seq<Seq<char>>, n: int)
    requires
        1 <= n <= xs.len(),
        forall|i: int| 0 <= i < xs.len() ==> #[trigger] plain_stage(xs[i]),
    ensures
        ({
            let st = stages_from(stages_start(), join(xs.take(n), pipe_separator()));
            &&& st.stages == xs.take(n - 1)
            &&& trim(st.current) == xs[n - 1]
            &&& st.scan == scan_start()
            &&& !st.failed
        }),
    decreases n,
{
    let pad = if n == 1 { Seq::<char>::empty() } else { seq![' '] };
    assert(all_space(pad)) by {
        if n > 1 {
            assert(is_space(pad[0]));
        }
    };
    assert(all_space(Seq::<char>::empty()));
    assert(plain_stage(xs[n - 1]));
    if n == 1 {
        assert(xs.take(1)[0] == xs[0]);
        lemma_no_split_from(stages_start(), xs[0]);
        assert(Seq::<char>::empty() + xs[0] =~= xs[0]);
        lemma_trim_padded(Seq::<char>::empty(), xs[0], Seq::<char>::empty());
        assert(Seq::<char>::empty() + xs[0] + Seq::<char>::empty() =~= xs[0]);
        assert(xs.take(0) =~= Seq::<Seq<char>>::empty());
    } else {
        lemma_stages_join_run(xs, n - 1);
        let prefix = join(xs.take(n - 1), pipe_separator());
        let st = stages_from(stages_start(), prefix);
        assert(xs.take(n).drop_last() =~= xs.take(n - 1));
        assert(xs.take(n).last() == xs[n - 1]);
        assert(join(xs.take(n), pipe_separator()) == prefix + pipe_separator() + xs[n - 1]);
        lemma_stages_concat(stages_start(), prefix + pipe_separator(), xs[n - 1]);
        lemma_stages_concat(stages_start(), prefix, pipe_separator());
        // over the separator
        let x = xs[n - 2];
        let s1 = stages_step(st, ' ');
        assert(is_space(' '));
        assert(s1.current == st.current.push(' '));
        let s2 = stages_step(s1, '|');
        assert(plain_stage(xs[n - 2]));
        assert(trim(st.current.push(' ')) == x) by {
            assert(plain_stage(x));
            lemma_trim_idempotent(st.current);
            let (a, b) = crate::text::lemma_trim_parts(st.current);
            let c = st.current;
            assert(c.push(' ') =~= c.take(a) + c.subrange(a, b) + (c.skip(b).push(' ')));
            assert forall|k: int| 0 <= k < c.skip(b).len() + 1 implies #[trigger] is_space(c.skip(b).push(' ')[k]) by {
                if k < c.skip(b).len() {
                    assert(c.skip(b).push(' ')[k] == c.skip(b)[k]);
                }
            }
            lemma_trim_padded(c.take(a), x, c.skip(b).push(' '));
        }
        assert(s2 == (Stages { stages: st.stages.push(x), current: seq![], scan: scan_start(), failed: false }));
        let s3 = stages_step(s2, ' ');
        assert(seq![' ', '|', ' '].drop_last() =~= seq![' ', '|']);
        assert(seq![' ', '|'].drop_last() =~= seq![' ']);
        assert(seq![' '].drop_last() =~= Seq::<char>::empty());
        assert(stages_from(st, Seq::<char>::empty()) == st);
        assert(seq![' '].last() == ' ');
        assert(stages_from(st, seq![' ']) == s1);
        assert(seq![' ', '|'].last() == '|');
        assert(stages_from(st, seq![' ', '|']) == s2);
        assert(seq![' ', '|', ' '].last() == ' ');
        assert(stages_from(st, pipe_separator()) == s3);
        assert(s3.current =~= seq![' ']);
        lemma_no_split_from(s3, xs[n - 1]);
        lemma_trim_padded(seq![' '], xs[n - 1], Seq::<char>::empty());
        assert(seq![' '] + xs[n - 1] + Seq::<char>::empty() =~= seq![' '] + xs[n - 1]);
        assert(xs.take(n - 2).push(x) =~= xs.take(n - 1));
    }
}

/// Stages written one after another with `" | "` between each two split
/// back into those stages.
pub proof fn law_stages_round_trip(xs: Seq<Seq<char>>)
    requires
        xs.len() > 0,
        forall|i: int| 0 <= i < xs.len() ==> #[trigger] plain_stage(xs[i]),
    ensures
        split_stages(join(xs, pipe_separator())) == Ok::<Seq<Seq<char>>, StageError>(xs),
{
    lemma_stages_join_run(xs, xs.len() as int);
    assert(plain_stage(xs[xs.len() - 1]));
    assert(xs.take(xs.len() as int) =~= xs);
    assert(xs.take(xs.len() - 1).push(xs[xs.len() - 1]) =~= xs);
}

} // verus!
