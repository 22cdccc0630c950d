use vstd::prelude::*;

use crate::aliases::position;
use crate::builtins::{alias_apply, eq_index, law_alias_define_then_show, Builtin, BuiltinTable, ShellState};
use crate::parser::{split_line, split_words, unmatched_quote_message};
use crate::pipeline::empty_stage_message;

verus! {

/// Why alias expansion of a command fails, with the alias at fault.
pub enum ExpandError {
    /// The alias was met a second time.
    Loop(Seq<char>),
    /// The alias's command line leaves a quote open.
    Invalid(Seq<char>),
    /// The alias's command line has no words.
    Empty(Seq<char>),
}

/// The message for each `ExpandError`.
pub open spec fn expand_message(e: ExpandError) -> Seq<char> {
    match e {
        ExpandError::Loop(c) => "alias loop detected for '"@ + c + "'"@,
        ExpandError::Invalid(c) => "invalid alias '"@ + c + "': "@ + unmatched_quote_message(),
        ExpandError::Empty(c) => "alias '"@ + c + "' expands to an empty command"@,
    }
}

/// Alias expansion of `words` when the aliases in `seen` were expanded
/// already: while the first word is an alias, it is replaced by the words of
/// its command line.
pub open spec fn expand_from(
    m: Map<Seq<char>, Seq<char>>,
    words: Seq<Seq<char>>,
    seen: Set<Seq<char>>,
) -> Result<Seq<Seq<char>>, ExpandError>
    decreases m.dom().difference(seen).len(),
    when m.dom().finite()
{
    if words.len() == 0 || !m.contains_key(words[0]) {
        Ok(words)
    } else if seen.contains(words[0]) {
        Err(ExpandError::Loop(words[0]))
    } else {
        match split_words(m[words[0]]) {
            None => Err(ExpandError::Invalid(words[0])),
            Some(w) => if w.len() == 0 {
                Err(ExpandError::Empty(words[0]))
            } else {
                proof {
                    lemma_difference_shrinks(m.dom(), seen, words[0]);
                }
                expand_from(m, w + words.drop_first(), seen.insert(words[0]))
            },
        }
    }
}

/// Alias expansion of the command `words` under the aliases `m`.
pub open spec fn expand(m: Map<Seq<char>, Seq<char>>, words: Seq<Seq<char>>) -> Result<
    Seq<Seq<char>>,
    ExpandError,
> {
    expand_from(m, words, Set::empty())
}

pub proof fn lemma_difference_shrinks(d: Set<Seq<char>>, seen: Set<Seq<char>>, c: Seq<char>)
    requires
        d.finite(),
        d.contains(c),
        !seen.contains(c),
    ensures
        d.difference(seen.insert(c)).len() < d.difference(seen).len(),
{
    assert(d.difference(seen.insert(c)) =~= d.difference(seen).remove(c));
    vstd::set::axiom_set_difference_finite(d, seen);
}

/// A copy of every string of `args`.
fn copy_words(args: &[String]) -> (r: Vec<String>)
    ensures
        r.deep_view() == args.deep_view(),
{
    let mut r: Vec<String> = Vec::new();
    let mut i: usize = 0;
    while i < args.len()
        invariant
            i <= args.len(),
            r.deep_view() == args.deep_view().take(i as int),
        decreases args.len() - i,
    {
        let ghost prev = r.deep_view();
        r.push(args[i].clone());
        assert(r.deep_view() =~= prev.push(args@[i as int]@));
        assert(args.deep_view().take(i + 1) =~= args.deep_view().take(i as int).push(args@[i as int]@));
        i += 1;
    }
    assert(args.deep_view().take(args.len() as int) =~= args.deep_view());
    r
}

/// `prefix`, then `name`, then `suffix`.
fn message(prefix: &str, name: &str, suffix: &str) -> (r: String)
    ensures
        r@ == prefix@ + name@ + suffix@,
{
    let mut r = String::from_str(prefix);
    r.append(name);
    r.append(suffix);
    r
}

/// Expands aliases for the first word of a command, again and again while
/// it is an alias (for example: `a` -> `b` -> `echo hi`), and fails when an
/// alias comes back.
pub fn expand_aliases(args: &[String], state: &ShellState) -> (r: Result<Vec<String>, String>)
    ensures
        match expand(state.aliases@, args.deep_view()) {
            Ok(w) => r matches Ok(v) && v.deep_view() == w,
            Err(e) => r matches Err(msg) && msg@ == expand_message(e),
        },
{
    let ghost m = state.aliases@;
    proof {
        state.aliases.lemma_finite();
    }
    if args.len() == 0 {
        return Ok(Vec::new());
    }
    let mut expanded = copy_words(args);
    let mut seen: Vec<String> = Vec::new();
    let ghost mut seen_set: Set<Seq<char>> = Set::empty();
    loop
        invariant
            m == state.aliases@,
            m.dom().finite(),
            expanded.len() > 0,
            seen_set.subset_of(m.dom()),
            forall|k: Seq<char>| #[trigger] seen_set.contains(k) <==> seen.deep_view().contains(k),
            expand(m, args.deep_view()) == expand_from(m, expanded.deep_view(), seen_set),
        decreases m.dom().difference(seen_set).len(),
    {
        let cmd = expanded[0].clone();
        assert(cmd@ == expanded.deep_view()[0]);
        let value = match state.aliases.get(cmd.as_str()) {
            Some(v) => v,
            None => {
                return Ok(expanded);
            },
        };
        match position(&seen, cmd.as_str()) {
            Some(i) => {
                assert(seen.deep_view()[i as int] == seen@[i as int]@);
                return Err(message("alias loop detected for '", cmd.as_str(), "'"));
            },
            None => {},
        }
        proof {
            if seen.deep_view().contains(cmd@) {
                let i = choose|i: int| 0 <= i < seen.deep_view().len() && seen.deep_view()[i] == cmd@;
                assert(seen@[i]@ == cmd@);
            }
            lemma_difference_shrinks(m.dom(), seen_set, cmd@);
        }
        let alias_args = match split_line(value.as_str()) {
            Ok(words) => words,
            Err(e) => {
                let mut msg = message("invalid alias '", cmd.as_str(), "': ");
                msg.append(e.as_str());
                return Err(msg);
            },
        };
        if alias_args.len() == 0 {
            return Err(message("alias '", cmd.as_str(), "' expands to an empty command"));
        }
        let ghost prev_seen = seen.deep_view();
        seen.push(cmd);
        assert(seen.deep_view() =~= prev_seen.push(cmd@));
        let ghost old_words = expanded.deep_view();
        let mut next = alias_args;
        let ghost head = next.deep_view();
        let mut j: usize = 1;
        while j < expanded.len()
            invariant
                1 <= j <= expanded.len(),
                old_words == expanded.deep_view(),
                next.deep_view() == head + old_words.subrange(1, j as int),
            decreases expanded.len() - j,
        {
            let ghost prev = next.deep_view();
            next.push(expanded[j].clone());
            assert(next.deep_view() =~= prev.push(old_words[j as int]));
            assert(old_words.subrange(1, j + 1) =~= old_words.subrange(1, j as int).push(old_words[j as int]));
            j += 1;
        }
        assert(old_words.subrange(1, old_words.len() as int) =~= old_words.drop_first());
        expanded = next;
        proof {
            seen_set = seen_set.insert(cmd@);
            assert forall|k: Seq<char>| #[trigger] seen_set.contains(k) <==> seen.deep_view().contains(k) by {
                if seen.deep_view().contains(k) && k != cmd@ {
                    let i = choose|i: int| 0 <= i < seen.deep_view().len() && seen.deep_view()[i] == k;
                    assert(prev_seen[i] == k);
                }
                if prev_seen.contains(k) {
                    let i = choose|i: int| 0 <= i < prev_seen.len() && prev_seen[i] == k;
                    assert(seen.deep_view()[i] == k);
                }
                if k == cmd@ {
                    assert(seen.deep_view()[prev_seen.len() as int] == k);
                }
            }
        }
    }
}


/// The message of a pipeline stage that runs the builtin `name`.
pub open spec fn builtin_in_pipeline_message(name: Seq<char>) -> Seq<char> {
    "builtin '"@ + name + "' cannot be used in a pipeline"@
}

/// One pipeline stage after alias expansion: it must have a command, and
/// that command must not be a builtin.
pub open spec fn prepare_stage(
    m: Map<Seq<char>, Seq<char>>,
    builtins: Map<Seq<char>, Builtin>,
    stage: Seq<Seq<char>>,
) -> Result<Seq<Seq<char>>, Seq<char>> {
    match expand(m, stage) {
        Err(e) => Err(expand_message(e)),
        Ok(x) => if x.len() == 0 {
            Err(empty_stage_message())
        } else if builtins.contains_key(x[0]) {
            Err(builtin_in_pipeline_message(x[0]))
        } else {
            Ok(x)
        },
    }
}

/// All stages prepared in order, or the message of the first that fails.
pub open spec fn prepare_stages(
    m: Map<Seq<char>, Seq<char>>,
    builtins: Map<Seq<char>, Builtin>,
    stages: Seq<Seq<Seq<char>>>,
) -> Result<Seq<Seq<Seq<char>>>, Seq<char>>
    decreases stages.len(),
{
    if stages.len() == 0 {
        Ok(seq![])
    } else {
        match prepare_stages(m, builtins, stages.drop_last()) {
            Err(e) => Err(e),
            Ok(done) => match prepare_stage(m, builtins, stages.last()) {
                Err(e) => Err(e),
                Ok(x) => Ok(done.push(x)),
            },
        }
    }
}

proof fn lemma_prepare_fails(
    m: Map<Seq<char>, Seq<char>>,
    builtins: Map<Seq<char>, Builtin>,
    p: Seq<Seq<Seq<char>>>,
    s: Seq<Seq<Seq<char>>>,
)
    requires
        p.len() <= s.len(),
        p == s.take(p.len() as int),
        prepare_stages(m, builtins, p) is Err,
    ensures
        prepare_stages(m, builtins, s) == prepare_stages(m, builtins, p),
    decreases s.len(),
{
    if s.len() > p.len() {
        assert(s.drop_last().take(p.len() as int) =~= p);
        lemma_prepare_fails(m, builtins, p, s.drop_last());
    } else {
        assert(s =~= p);
    }
}

/// Prepares parsed pipeline stages for execution: expands aliases in each
/// stage and rejects empty stages and builtins.
pub fn prepare_pipeline_stages(
    stages: Vec<Vec<String>>,
    builtins: &BuiltinTable,
    state: &ShellState,
) -> (r: Result<Vec<Vec<String>>, String>)
    ensures
        match prepare_stages(state.aliases@, builtins@, stages.deep_view()) {
            Ok(v) => r matches Ok(x) && x.deep_view() == v,
            Err(e) => r matches Err(msg) && msg@ == e,
        },
{
    let ghost all = stages.deep_view();
    let mut expanded_stages: Vec<Vec<String>> = Vec::new();
    let mut i: usize = 0;
    assert(all.take(0) =~= Seq::<Seq<Seq<char>>>::empty());
    assert(expanded_stages.deep_view() =~= Seq::<Seq<Seq<char>>>::empty());
    while i < stages.len()
        invariant
            i <= stages.len(),
            all == stages.deep_view(),
            prepare_stages(state.aliases@, builtins@, all.take(i as int)) == Ok::<
                Seq<Seq<Seq<char>>>,
                Seq<char>,
            >(expanded_stages.deep_view()),
        decreases stages.len() - i,
    {
        assert(all.take(i + 1).drop_last() =~= all.take(i as int));
        assert(all.take(i + 1).last() == stages@[i as int].deep_view());
        let expanded = match expand_aliases(stages[i].as_slice(), state) {
            Ok(x) => x,
            Err(e) => {
                proof {
                    lemma_prepare_fails(state.aliases@, builtins@, all.take(i + 1), all);
                }
                return Err(e);
            },
        };
        if expanded.len() == 0 {
            proof {
                lemma_prepare_fails(state.aliases@, builtins@, all.take(i + 1), all);
            }
            return Err(String::from_str("empty command in pipeline"));
        }
        assert(expanded@[0]@ == expanded.deep_view()[0]);
        if builtins.contains_key(expanded[0].as_str()) {
            proof {
                lemma_prepare_fails(state.aliases@, builtins@, all.take(i + 1), all);
            }
            return Err(message("builtin '", expanded[0].as_str(), "' cannot be used in a pipeline"));
        }
        let ghost prev = expanded_stages.deep_view();
        let ghost ev = expanded.deep_view();
        expanded_stages.push(expanded);
        assert(expanded_stages.deep_view() =~= prev.push(ev));
        i += 1;
    }
    assert(all.take(stages.len() as int) =~= all);
    Ok(expanded_stages)
}

/// What the shell does with a command line that is not a pipeline.
#[derive(Debug, PartialEq, Eq)]
pub enum Dispatch {
    /// Print this message and go on.
    Report(String),
    /// Run this builtin with these arguments, the command name first.
    Run(Builtin, Vec<String>),
    /// Start this program with these arguments, the program first.
    Launch(Vec<String>),
    /// Nothing to do.
    Nothing,
}

/// Decides how a command runs: expands its aliases, then runs a builtin
/// when the first word names one, else launches the program.
pub fn dispatch(args: &[String], builtins: &BuiltinTable, state: &ShellState) -> (r: Dispatch)
    ensures
        match expand(state.aliases@, args.deep_view()) {
            Err(e) => r matches Dispatch::Report(msg) && msg@ == expand_message(e),
            Ok(x) => if x.len() == 0 {
                r is Nothing
            } else if builtins@.contains_key(x[0]) {
                r matches Dispatch::Run(b, v) && b == builtins@[x[0]] && v.deep_view() == x
            } else {
                r matches Dispatch::Launch(v) && v.deep_view() == x
            },
        },
{
    let expanded = match expand_aliases(args, state) {
        Ok(x) => x,
        Err(e) => {
            return Dispatch::Report(e);
        },
    };
    if expanded.len() == 0 {
        return Dispatch::Nothing;
    }
    assert(expanded@[0]@ == expanded.deep_view()[0]);
    match builtins.get(expanded[0].as_str()) {
        Some(b) => Dispatch::Run(b, expanded),
        None => Dispatch::Launch(expanded),
    }
}


proof fn lemma_expand_from(m: Map<Seq<char>, Seq<char>>, words: Seq<Seq<char>>, seen: Set<Seq<char>>)
    requires
        m.dom().finite(),
    ensures
        expand_from(m, words, seen) matches Ok(x) ==> {
            &&& x.len() == 0 || !m.contains_key(x[0])
            &&& words.len() > 0 ==> x.len() >= words.len() && x.skip(x.len() - (words.len() - 1))
                == words.drop_first()
        },
    decreases m.dom().difference(seen).len(),
{
    if words.len() > 0 && m.contains_key(words[0]) && !seen.contains(words[0]) {
        if let Some(w) = split_words(m[words[0]]) {
            if w.len() > 0 {
                lemma_difference_shrinks(m.dom(), seen, words[0]);
                let next = w + words.drop_first();
                lemma_expand_from(m, next, seen.insert(words[0]));
                if let Ok(x) = expand_from(m, words, seen) {
                    assert(next.drop_first() =~= w.drop_first() + words.drop_first());
                    let tail = x.skip(x.len() - (next.len() - 1));
                    assert(tail == next.drop_first());
                    assert(x.skip(x.len() - (words.len() - 1)) =~= tail.skip(w.len() - 1));
                    assert(tail.skip(w.len() - 1) =~= words.drop_first());
                }
            }
        }
    } else if words.len() > 0 {
        assert(words.skip(1) =~= words.drop_first());
    }
}

/// A command whose first word is no alias is left as it is.
pub proof fn law_expand_keeps_non_alias(m: Map<Seq<char>, Seq<char>>, words: Seq<Seq<char>>)
    requires
        m.dom().finite(),
        words.len() == 0 || !m.contains_key(words[0]),
    ensures
        expand(m, words) == Ok::<Seq<Seq<char>>, ExpandError>(words),
{
}

/// Expansion goes on until the first word is no alias, and keeps the
/// arguments that followed the command.
pub proof fn law_expand_result(m: Map<Seq<char>, Seq<char>>, words: Seq<Seq<char>>)
    requires
        m.dom().finite(),
    ensures
        expand(m, words) matches Ok(x) ==> {
            &&& x.len() == 0 || !m.contains_key(x[0])
            &&& words.len() > 0 ==> x.len() >= words.len() && x.skip(x.len() - (words.len() - 1))
                == words.drop_first()
        },
{
    lemma_expand_from(m, words, Set::empty());
}

/// Expanding an expanded command changes nothing.
pub proof fn law_expand_idempotent(m: Map<Seq<char>, Seq<char>>, words: Seq<Seq<char>>)
    requires
        m.dom().finite(),
    ensures
        expand(m, words) matches Ok(x) ==> expand(m, x) == Ok::<Seq<Seq<char>>, ExpandError>(x),
{
    law_expand_result(m, words);
}

/// An alias whose command line starts with the alias itself (such as
/// `ls='ls -la'`) is a loop.
pub proof fn law_self_alias_is_loop(m: Map<Seq<char>, Seq<char>>, words: Seq<Seq<char>>)
    requires
        m.dom().finite(),
        words.len() > 0,
        m.contains_key(words[0]),
        split_words(m[words[0]]) matches Some(w) && w.len() > 0 && w[0] == words[0],
    ensures
        expand(m, words) == Err::<Seq<Seq<char>>, ExpandError>(ExpandError::Loop(words[0])),
{
    let w = split_words(m[words[0]]).unwrap();
    let seen = Set::<Seq<char>>::empty().insert(words[0]);
    lemma_difference_shrinks(m.dom(), Set::empty(), words[0]);
    assert((w + words.drop_first())[0] == words[0]);
    assert(expand_from(m, w + words.drop_first(), seen) == Err::<Seq<Seq<char>>, ExpandError>(
        ExpandError::Loop(words[0]),
    ));
}

/// No prepared pipeline stage is empty or runs a builtin, and each is the
/// expansion of the stage it came from.
pub proof fn law_prepared_stages(
    m: Map<Seq<char>, Seq<char>>,
    builtins: Map<Seq<char>, Builtin>,
    stages: Seq<Seq<Seq<char>>>,
)
    requires
        m.dom().finite(),
    ensures
        prepare_stages(m, builtins, stages) matches Ok(v) ==> {
            &&& v.len() == stages.len()
            &&& forall|i: int| 0 <= i < v.len() ==> {
                &&& (#[trigger] v[i]).len() > 0
                &&& !builtins.contains_key(v[i][0])
                &&& expand(m, stages[i]) == Ok::<Seq<Seq<char>>, ExpandError>(v[i])
            }
        },
    decreases stages.len(),
{
    if stages.len() > 0 {
        law_prepared_stages(m, builtins, stages.drop_last());
        if let Ok(v) = prepare_stages(m, builtins, stages) {
            let done = prepare_stages(m, builtins, stages.drop_last())->Ok_0;
            assert(v == done.push(v.last()));
            assert forall|i: int| 0 <= i < v.len() implies {
                &&& (#[trigger] v[i]).len() > 0
                &&& !builtins.contains_key(v[i][0])
                &&& expand(m, stages[i]) == Ok::<Seq<Seq<char>>, ExpandError>(v[i])
            } by {
                if i < v.len() - 1 {
                    assert(v[i] == done[i]);
                    assert(stages[i] == stages.drop_last()[i]);
                }
            }
        }
    }
}


/// Once `alias name=value` has run, a command starting with `name` runs the
/// words of `value` followed by the command's own arguments, when the first
/// of those words is no alias itself.
pub proof fn law_defined_alias_expands(
    m: Map<Seq<char>, Seq<char>>,
    name: Seq<char>,
    value: Seq<char>,
    args: Seq<Seq<char>>,
)
    requires
        m.dom().finite(),
        eq_index(name) == -1,
        split_words(value) matches Some(w) && w.len() > 0 && !m.insert(name, value).contains_key(w[0]),
    ensures
        ({
            let defined = alias_apply(m, seq![name + seq!['='] + value]).0;
            expand(defined, seq![name] + args) == Ok::<Seq<Seq<char>>, ExpandError>(
                split_words(value).unwrap() + args,
            )
        }),
{
    law_alias_define_then_show(m, name, value);
    let d = name + seq!['='] + value;
    let m2 = m.insert(name, value);
    assert(seq![d, name].drop_last() =~= seq![d]);
    assert(alias_apply(m, seq![d]).0 == m2);
    let w = split_words(value).unwrap();
    let words = seq![name] + args;
    assert(words[0] == name);
    assert(words.drop_first() =~= args);
    lemma_difference_shrinks(m2.dom(), Set::empty(), name);
    assert((w + args)[0] == w[0]);
    assert(expand_from(m2, w + args, Set::<Seq<char>>::empty().insert(name)) == Ok::<
        Seq<Seq<char>>,
        ExpandError,
    >(w + args));
}


/// A command ready to run in a pipeline: it expands without error to a
/// command with a first word that names no builtin.
pub open spec fn runnable_stage(
    m: Map<Seq<char>, Seq<char>>,
    builtins: Map<Seq<char>, Builtin>,
    stage: Seq<Seq<char>>,
) -> bool {
    expand(m, stage) matches Ok(x) && x.len() > 0 && !builtins.contains_key(x[0])
}

/// Preparation refuses nothing else: when every stage expands to a command
/// whose first word names no builtin, whatever its other words are, the
/// stages are prepared, each as its expansion.
pub proof fn law_prepare_stages_complete(
    m: Map<Seq<char>, Seq<char>>,
    builtins: Map<Seq<char>, Builtin>,
    stages: Seq<Seq<Seq<char>>>,
)
    requires
        m.dom().finite(),
        forall|i: int| 0 <= i < stages.len() ==> #[trigger] runnable_stage(m, builtins, stages[i]),
    ensures
        prepare_stages(m, builtins, stages) == Ok::<Seq<Seq<Seq<char>>>, Seq<char>>(
            Seq::new(stages.len(), |i: int| expand(m, stages[i])->Ok_0),
        ),
    decreases stages.len(),
{
    if stages.len() > 0 {
        let p = stages.drop_last();
        assert forall|i: int| 0 <= i < p.len() implies #[trigger] runnable_stage(m, builtins, p[i]) by {
            assert(p[i] == stages[i]);
            assert(runnable_stage(m, builtins, stages[i]));
        }
        law_prepare_stages_complete(m, builtins, p);
        assert(runnable_stage(m, builtins, stages[stages.len() - 1]));
        assert(Seq::new(p.len(), |i: int| expand(m, p[i])->Ok_0).push(expand(m, stages.last())->Ok_0)
            =~= Seq::new(stages.len(), |i: int| expand(m, stages[i])->Ok_0));
    } else {
        assert(Seq::new(0, |i: int| expand(m, stages[i])->Ok_0) =~= Seq::<Seq<Seq<char>>>::empty());
    }
}

} // verus!
