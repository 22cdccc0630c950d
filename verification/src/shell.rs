use vstd::prelude::*;

use crate::builtins::{Builtin, BuiltinTable, ShellState};
use crate::executor::{
    expand, law_prepare_stages_complete, prepare_pipeline_stages, prepare_stages, runnable_stage,
};
use crate::parser::{split_line, split_words, unmatched_quote_message};
use crate::pipeline::{
    law_single_stage, law_stages_split_into_words, lemma_good_stage_words, no_unquoted_pipe,
    parse_pipeline, split_stages, stage_error_message, stage_words,
};
use crate::text::{chars_of, trim, trim_str};

verus! {

/// The prepared stages of the pipeline line `t`, or the message that the
/// shell prints instead.
pub open spec fn pipeline_plan(
    t: Seq<char>,
    m: Map<Seq<char>, Seq<char>>,
    builtins: Map<Seq<char>, Builtin>,
) -> Result<Seq<Seq<Seq<char>>>, Seq<char>> {
    match split_stages(t) {
        Err(e) => Err(stage_error_message(e)),
        Ok(s) => match stage_words(s) {
            None => Err(unmatched_quote_message()),
            Some(w) => prepare_stages(m, builtins, w),
        },
    }
}

/// What the shell does with one line of input.
#[derive(Debug, PartialEq, Eq)]
pub enum LineAction {
    /// A blank line: nothing.
    Skip,
    /// Print this message and go on.
    Report(String),
    /// Run these stages as a pipeline.
    Pipeline(Vec<Vec<String>>),
    /// Execute this command.
    Command(Vec<String>),
}

/// Whether `cs` holds a `|`.
fn has_pipe(cs: &Vec<char>) -> (r: bool)
    ensures
        r == cs@.contains('|'),
{
    let mut i: usize = 0;
    while i < cs.len()
        invariant
            i <= cs.len(),
            forall|j: int| 0 <= j < i ==> cs@[j] != '|',
        decreases cs.len() - i,
    {
        if cs[i] == '|' {
            return true;
        }
        i += 1;
    }
    false
}

/// Handles one line of input: a blank line is skipped; any other line is
/// trimmed and recorded in the history, then read as a pipeline when it
/// holds a `|` and as a single command otherwise.
pub fn interpret_line(line: &str, builtins: &BuiltinTable, state: &mut ShellState) -> (r: LineAction)
    ensures
        final(state).aliases == old(state).aliases,
        trim(line@).len() == 0 ==> r is Skip && final(state).history == old(state).history,
        trim(line@).len() > 0 ==> final(state).history.deep_view() == old(
            state,
        ).history.deep_view().push(trim(line@)),
        trim(line@).len() > 0 && trim(line@).contains('|') ==> match pipeline_plan(
            trim(line@),
            old(state).aliases@,
            builtins@,
        ) {
            Ok(v) => r matches LineAction::Pipeline(x) && x.deep_view() == v,
            Err(e) => r matches LineAction::Report(msg) && msg@ == e,
        },
        trim(line@).len() > 0 && !trim(line@).contains('|') ==> match split_words(trim(line@)) {
            Some(w) => r matches LineAction::Command(v) && v.deep_view() == w,
            None => r matches LineAction::Report(msg) && msg@ == unmatched_quote_message(),
        },
{
    let trimmed = trim_str(line);
    if trimmed.as_str().is_empty() {
        return LineAction::Skip;
    }
    let ghost prev = state.history.deep_view();
    state.history.push(trimmed.clone());
    assert(state.history.deep_view() =~= prev.push(trimmed@));
    let cs = chars_of(trimmed.as_str());
    if has_pipe(&cs) {
        return match parse_pipeline(trimmed.as_str()) {
            Err(e) => LineAction::Report(e),
            Ok(stages) => match prepare_pipeline_stages(stages, builtins, state) {
                Ok(prepared) => LineAction::Pipeline(prepared),
                Err(e) => LineAction::Report(e),
            },
        };
    }
    match split_line(trimmed.as_str()) {
        Ok(args) => LineAction::Command(args),
        Err(e) => LineAction::Report(e),
    }
}


/// A pipeline line whose every stage is ready to run is run whole, as many
/// stages as the line has, each the expansion of its words; the number of
/// stages is not restricted.
pub proof fn law_pipeline_plan_runs_every_stage(
    t: Seq<char>,
    m: Map<Seq<char>, Seq<char>>,
    builtins: Map<Seq<char>, Builtin>,
)
    requires
        m.dom().finite(),
        split_stages(t) is Ok,
        forall|i: int| 0 <= i < split_stages(t)->Ok_0.len() ==> runnable_stage(
            m,
            builtins,
            (#[trigger] split_words(split_stages(t)->Ok_0[i]))->Some_0,
        ),
    ensures
        ({
            let v = split_stages(t)->Ok_0;
            pipeline_plan(t, m, builtins) == Ok::<Seq<Seq<Seq<char>>>, Seq<char>>(
                Seq::new(v.len(), |i: int| expand(m, split_words(v[i])->Some_0)->Ok_0),
            )
        }),
{
    let v = split_stages(t)->Ok_0;
    law_stages_split_into_words(t);
    lemma_good_stage_words(v);
    let w = stage_words(v)->Some_0;
    assert forall|i: int| 0 <= i < w.len() implies #[trigger] runnable_stage(m, builtins, w[i]) by {
        assert(Some(w[i]) == split_words(v[i]));
        assert(runnable_stage(m, builtins, split_words(v[i])->Some_0));
    }
    law_prepare_stages_complete(m, builtins, w);
    assert forall|i: int| 0 <= i < v.len() implies #[trigger] w[i] == split_words(v[i])->Some_0 by {
        assert(Some(w[i]) == split_words(v[i]));
    }
    assert(Seq::new(w.len(), |i: int| expand(m, w[i])->Ok_0) =~= Seq::new(
        v.len(),
        |i: int| expand(m, split_words(v[i])->Some_0)->Ok_0,
    ));
}

/// A trimmed line whose every `|` is quoted or escaped is one command: when
/// its words expand to a command that names no builtin, that command is run
/// as a pipeline of one stage.
pub proof fn law_quoted_pipe_line_is_one_stage(
    t: Seq<char>,
    m: Map<Seq<char>, Seq<char>>,
    builtins: Map<Seq<char>, Builtin>,
)
    requires
        m.dom().finite(),
        t.len() > 0,
        trim(t) == t,
        no_unquoted_pipe(t),
        split_words(t) is Some,
        runnable_stage(m, builtins, split_words(t)->Some_0),
    ensures
        pipeline_plan(t, m, builtins) == Ok::<Seq<Seq<Seq<char>>>, Seq<char>>(
            seq![expand(m, split_words(t)->Some_0)->Ok_0],
        ),
{
    law_single_stage(t);
    let w = split_words(t)->Some_0;
    assert(stage_words(seq![t]) == Some(seq![w]));
    law_prepare_stages_complete(m, builtins, seq![w]);
    assert(Seq::new(1, |i: int| expand(m, seq![w][i])->Ok_0) =~= seq![expand(m, w)->Ok_0]);
}

} // verus!
