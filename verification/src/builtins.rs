use vstd::prelude::*;

use crate::aliases::{distinct, find, lemma_find, position, table_map, AliasTable};
use crate::text::{chars_of, join, string_of};

verus! {

/// Tells the shell loop what to do after a builtin command runs.
#[derive(Clone, Copy, Debug, PartialEq, Eq, Structural)]
pub enum ControlFlow {
    Continue,
    Exit(i32),
}

/// Shared shell state that builtin commands can read or update.
pub struct ShellState {
    pub history: Vec<String>,
    pub aliases: AliasTable,
}

impl ShellState {
    /// Creates a new empty shell state.
    pub fn new() -> (r: Self)
        ensures
            r.history@.len() == 0,
            r.aliases@ == Map::<Seq<char>, Seq<char>>::empty(),
    {
        ShellState { history: Vec::new(), aliases: AliasTable::new() }
    }
}

impl Default for ShellState {
    /// An empty shell state, as `ShellState::new` gives.
    fn default() -> (r: Self)
        ensures
            r.history@.len() == 0,
            r.aliases@ == Map::<Seq<char>, Seq<char>>::empty(),
    {
        ShellState::new()
    }
}

/// The builtin commands of the shell.
#[derive(Clone, Copy, Debug, PartialEq, Eq, Structural)]
pub enum Builtin {
    Cd,
    Help,
    Exit,
    Pwd,
    History,
    Alias,
    Echo,
    List,
    Clear,
}

/// The lookup table from command name to builtin command.
pub struct BuiltinTable {
    names: Vec<String>,
    kinds: Vec<Builtin>,
}

impl BuiltinTable {
    #[verifier::type_invariant]
    spec fn well_formed(self) -> bool {
        &&& self.names.len() == self.kinds.len()
        &&& distinct(self.names.deep_view())
    }

    /// An empty table.
    pub fn new() -> (r: Self)
        ensures
            r@ == Map::<Seq<char>, Builtin>::empty(),
    {
        let r = BuiltinTable { names: Vec::new(), kinds: Vec::new() };
        assert(r@ =~= Map::<Seq<char>, Builtin>::empty());
        r
    }

    /// Adds the command `name`, which the table does not hold yet.
    fn add(&mut self, name: &str, kind: Builtin)
        requires
            !old(self)@.contains_key(name@),
        ensures
            final(self)@ == old(self)@.insert(name@, kind),
    {
        let mut table = BuiltinTable::new();
        std::mem::swap(&mut table, self);
        proof {
            use_type_invariant(&table);
        }
        let ghost ks = table.names.deep_view();
        let ghost before = table@;
        let BuiltinTable { mut names, mut kinds } = table;
        let ghost vs = kinds@;
        names.push(String::from_str(name));
        kinds.push(kind);
        proof {
            let ks2 = names.deep_view();
            assert(ks2 =~= ks.push(name@));
            assert(ks2.drop_last() =~= ks);
            lemma_find(ks, name@);
            assert forall|k: Seq<char>| k != name@ implies #[trigger] find(ks2, k) == find(ks, k) by {}
            assert forall|a: int, b: int| 0 <= a < ks2.len() && 0 <= b < ks2.len() && a != b implies ks2[a] != ks2[b] by {
                if a < ks.len() && b < ks.len() {
                    assert(ks2[a] == ks[a] && ks2[b] == ks[b]);
                } else if a == ks.len() {
                    assert(ks2[b] == ks[b]);
                } else {
                    assert(ks2[a] == ks[a]);
                }
            }
            assert forall|k: Seq<char>| #![auto] find(ks, k) >= 0 implies find(ks, k) < ks.len() by {
                lemma_find(ks, k);
            }
            assert(table_map(ks2, kinds@) =~= before.insert(name@, kind));
        }
        *self = BuiltinTable { names, kinds };
    }

    /// The builtin command named `name`.
    pub fn get(&self, name: &str) -> (r: Option<Builtin>)
        ensures
            match r {
                Some(b) => self@.contains_key(name@) && b == self@[name@],
                None => !self@.contains_key(name@),
            },
    {
        proof {
            use_type_invariant(self);
            lemma_find(self.names.deep_view(), name@);
        }
        match position(&self.names, name) {
            Some(i) => {
                assert(self.names.deep_view()[i as int] == self.names@[i as int]@);
                Some(self.kinds[i])
            },
            None => None,
        }
    }

    /// Whether `name` is the name of a builtin command.
    pub fn contains_key(&self, name: &str) -> (r: bool)
        ensures
            r == self@.contains_key(name@),
    {
        self.get(name).is_some()
    }

    /// The name of every command once, in no promised order.
    pub fn names(&self) -> (r: Vec<String>)
        ensures
            distinct(r.deep_view()),
            forall|i: int| 0 <= i < r.len() ==> #[trigger] self@.contains_key(r@[i]@),
            forall|k: Seq<char>| #[trigger] self@.contains_key(k) ==> exists|i: int| 0 <= i < r.len() && r@[i]@ == k,
    {
        proof {
            use_type_invariant(self);
        }
        let ghost ks = self.names.deep_view();
        let mut r: Vec<String> = Vec::new();
        let mut i: usize = 0;
        while i < self.names.len()
            invariant
                i <= self.names.len(),
                ks == self.names.deep_view(),
                r.deep_view() == ks.take(i as int),
            decreases self.names.len() - i,
        {
            let ghost prev = r.deep_view();
            r.push(self.names[i].clone());
            assert(r.deep_view() =~= prev.push(ks[i as int]));
            assert(ks.take(i + 1) =~= ks.take(i as int).push(ks[i as int]));
            i += 1;
        }
        proof {
            assert(ks.take(self.names.len() as int) =~= ks);
            assert(r.deep_view() == ks);
            assert forall|j: int| 0 <= j < r.len() implies #[trigger] self@.contains_key(r@[j]@) by {
                assert(r@[j]@ == ks[j]);
                lemma_find(ks, ks[j]);
            }
            assert forall|k: Seq<char>| #[trigger] self@.contains_key(k) implies exists|j: int| 0 <= j < r.len() && r@[j]@ == k by {
                lemma_find(ks, k);
                let j = find(ks, k);
                assert(r@[j]@ == r.deep_view()[j]);
            }
        }
        r
    }
}

impl View for BuiltinTable {
    type V = Map<Seq<char>, Builtin>;

    /// The table as a map from command name to builtin command.
    closed spec fn view(&self) -> Map<Seq<char>, Builtin> {
        table_map(self.names.deep_view(), self.kinds@)
    }
}

/// The builtin commands of the shell, by name.
pub open spec fn builtin_map() -> Map<Seq<char>, Builtin> {
    map![
        "cd"@ => Builtin::Cd,
        "help"@ => Builtin::Help,
        "exit"@ => Builtin::Exit,
        "pwd"@ => Builtin::Pwd,
        "history"@ => Builtin::History,
        "alias"@ => Builtin::Alias,
        "echo"@ => Builtin::Echo,
        "list"@ => Builtin::List,
        "clear"@ => Builtin::Clear,
    ]
}

/// Builds the command name to builtin command lookup table.
pub fn register() -> (r: BuiltinTable)
    ensures
        r@ == builtin_map(),
{
    proof {
        reveal_strlit("cd");
        reveal_strlit("help");
        reveal_strlit("exit");
        reveal_strlit("pwd");
        reveal_strlit("history");
        reveal_strlit("alias");
        reveal_strlit("echo");
        reveal_strlit("list");
        reveal_strlit("clear");
        assert("cd"@[0] == 'c' && "cd"@[1] == 'd');
        assert("help"@[0] == 'h' && "help"@[1] == 'e');
        assert("exit"@[0] == 'e' && "exit"@[1] == 'x');
        assert("pwd"@[0] == 'p' && "pwd"@[1] == 'w');
        assert("history"@[0] == 'h' && "history"@[1] == 'i');
        assert("alias"@[0] == 'a' && "alias"@[1] == 'l');
        assert("echo"@[0] == 'e' && "echo"@[1] == 'c');
        assert("list"@[0] == 'l' && "list"@[1] == 'i');
        assert("clear"@[0] == 'c' && "clear"@[1] == 'l');
    }
    let mut map = BuiltinTable::new();
    map.add("cd", Builtin::Cd);
    map.add("help", Builtin::Help);
    map.add("exit", Builtin::Exit);
    map.add("pwd", Builtin::Pwd);
    map.add("history", Builtin::History);
    map.add("alias", Builtin::Alias);
    map.add("echo", Builtin::Echo);
    map.add("list", Builtin::List);
    map.add("clear", Builtin::Clear);
    assert(map@ =~= builtin_map());
    map
}

/// Tells the shell loop to exit with status code 0.
pub fn builtin_exit(args: &[String], state: &mut ShellState) -> (r: ControlFlow)
    ensures
        r == ControlFlow::Exit(0),
        *final(state) == *old(state),
{
    ControlFlow::Exit(0)
}


/// What `cd` does with its arguments.
#[derive(Debug, PartialEq, Eq)]
pub enum CdPlan {
    /// More than one argument: nothing changes.
    TooManyArguments,
    /// Go to the home directory.
    Home,
    /// Go to the named directory.
    Dir(String),
}

/// Decides what `cd` does: no argument, or `~`, means the home directory.
pub fn plan_cd(args: &[String]) -> (r: CdPlan)
    requires
        args.len() >= 1,
    ensures
        args.len() > 2 ==> r == CdPlan::TooManyArguments,
        args.len() <= 2 && (args.len() == 1 || args@[1]@ == "~"@) ==> r == CdPlan::Home,
        args.len() == 2 && args@[1]@ != "~"@ ==> (r matches CdPlan::Dir(d) && d@ == args@[1]@),
{
    if args.len() > 2 {
        return CdPlan::TooManyArguments;
    }
    if args.len() == 1 {
        return CdPlan::Home;
    }
    let tilde = String::from_str("~");
    if args[1] == tilde {
        CdPlan::Home
    } else {
        CdPlan::Dir(args[1].clone())
    }
}

/// The text that `echo` prints: its arguments separated by single spaces.
pub fn echo_text(args: &[String]) -> (r: String)
    requires
        args.len() >= 1,
    ensures
        r@ == join(args@.map_values(|a: String| a@).skip(1), " "@),
{
    let ghost words = args@.map_values(|a: String| a@).skip(1);
    let mut r = String::new();
    let mut i: usize = 1;
    while i < args.len()
        invariant
            1 <= i <= args.len(),
            words == args@.map_values(|a: String| a@).skip(1),
            r@ == join(words.take(i - 1), " "@),
        decreases args.len() - i,
    {
        assert(words.take(i as int).drop_last() =~= words.take(i - 1));
        if i > 1 {
            r.append(" ");
        }
        r.append(args[i].as_str());
        i += 1;
    }
    assert(words.take(args.len() - 1) =~= words);
    r
}


/// The position of the first `=` in `s`, or -1 when there is none.
pub open spec fn eq_index(s: Seq<char>) -> int
    decreases s.len(),
{
    if s.len() == 0 {
        -1
    } else if s[0] == '=' {
        0
    } else if eq_index(s.drop_first()) < 0 {
        -1
    } else {
        eq_index(s.drop_first()) + 1
    }
}

proof fn lemma_eq_index(s: Seq<char>, i: int)
    requires
        0 <= i <= s.len(),
        forall|j: int| 0 <= j < i ==> s[j] != '=',
        i < s.len() ==> s[i] == '=',
    ensures
        eq_index(s) == if i == s.len() { -1 } else { i },
    decreases i,
{
    if i > 0 {
        assert forall|j: int| 0 <= j < i - 1 implies s.drop_first()[j] != '=' by {
            assert(s.drop_first()[j] == s[j + 1]);
        }
        lemma_eq_index(s.drop_first(), i - 1);
    }
}

/// The position of the first `=` in `cs`.
fn find_eq(cs: &Vec<char>) -> (r: Option<usize>)
    ensures
        match r {
            Some(p) => p < cs.len() && eq_index(cs@) == p,
            None => eq_index(cs@) == -1,
        },
{
    let mut i: usize = 0;
    while i < cs.len()
        invariant
            i <= cs.len(),
            forall|j: int| 0 <= j < i ==> cs@[j] != '=',
        decreases cs.len() - i,
    {
        if cs[i] == '=' {
            proof {
                lemma_eq_index(cs@, i as int);
            }
            return Some(i);
        }
        i += 1;
    }
    proof {
        lemma_eq_index(cs@, i as int);
    }
    None
}

/// A line that `alias` prints.
#[derive(Debug, PartialEq, Eq)]
pub enum AliasReport {
    /// `name` stands for `value`.
    Defined(String, String),
    /// `name` is no alias.
    Missing(String),
}

/// An `AliasReport` over character sequences.
pub enum AliasNote {
    Defined(Seq<char>, Seq<char>),
    Missing(Seq<char>),
}

impl View for AliasReport {
    type V = AliasNote;

    open spec fn view(&self) -> AliasNote {
        match self {
            AliasReport::Defined(n, v) => AliasNote::Defined(n@, v@),
            AliasReport::Missing(n) => AliasNote::Missing(n@),
        }
    }
}

/// The aliases and the printed lines after `alias` handles each of `words`
/// in turn: `name=value` defines `name`; any other word shows its alias.
pub open spec fn alias_apply(m: Map<Seq<char>, Seq<char>>, words: Seq<Seq<char>>) -> (
    Map<Seq<char>, Seq<char>>,
    Seq<AliasNote>,
)
    decreases words.len(),
{
    if words.len() == 0 {
        (m, seq![])
    } else {
        let (m1, notes) = alias_apply(m, words.drop_last());
        let w = words.last();
        let p = eq_index(w);
        if p >= 0 {
            (m1.insert(w.take(p), w.skip(p + 1)), notes)
        } else if m1.contains_key(w) {
            (m1, notes.push(AliasNote::Defined(w, m1[w])))
        } else {
            (m1, notes.push(AliasNote::Missing(w)))
        }
    }
}

/// The `alias` builtin: with no argument it reports every alias; otherwise
/// each `name=value` argument defines an alias and each other argument
/// reports the alias of that name, or that there is none.
pub fn run_alias(args: &[String], state: &mut ShellState) -> (r: Vec<AliasReport>)
    requires
        args.len() >= 1,
    ensures
        final(state).history == old(state).history,
        args.len() == 1 ==> {
            &&& final(state).aliases@ == old(state).aliases@
            &&& forall|i: int| 0 <= i < r.len() ==> (#[trigger] r@[i] matches AliasReport::Defined(n, v)
                && old(state).aliases@.contains_key(n@) && old(state).aliases@[n@] == v@)
            &&& forall|i: int, j: int| 0 <= i < r.len() && 0 <= j < r.len() && i != j ==>
                (#[trigger] r@[i]).report_name() != (#[trigger] r@[j]).report_name()
            &&& forall|k: Seq<char>| #[trigger] old(state).aliases@.contains_key(k) ==>
                exists|i: int| 0 <= i < r.len() && r@[i].report_name() == k
        },
        args.len() > 1 ==> (final(state).aliases@, r@.map_values(|x: AliasReport| x@)) == alias_apply(
            old(state).aliases@,
            args@.map_values(|a: String| a@).skip(1),
        ),
{
    if args.len() == 1 {
        let entries = state.aliases.entries();
        let mut r: Vec<AliasReport> = Vec::new();
        let mut i: usize = 0;
        while i < entries.len()
            invariant
                i <= entries.len(),
                r.len() == i,
                forall|j: int| 0 <= j < i ==> #[trigger] r@[j] == AliasReport::Defined(entries@[j].0, entries@[j].1),
            decreases entries.len() - i,
        {
            let n = entries[i].0.clone();
            let v = entries[i].1.clone();
            r.push(AliasReport::Defined(n, v));
            i += 1;
        }
        proof {
            let names = entries@.map_values(|e: (String, String)| e.0@);
            assert forall|a: int, b: int| 0 <= a < r.len() && 0 <= b < r.len() && a != b implies
                (#[trigger] r@[a]).report_name() != (#[trigger] r@[b]).report_name() by {
                assert(names[a] != names[b]);
            }
            assert forall|k: Seq<char>| #[trigger] old(state).aliases@.contains_key(k) implies
                exists|j: int| 0 <= j < r.len() && r@[j].report_name() == k by {
                let j = choose|j: int| 0 <= j < entries.len() && entries@[j].0@ == k;
                assert(r@[j].report_name() == k);
            }
        }
        return r;
    }
    let ghost words = args@.map_values(|a: String| a@).skip(1);
    let mut r: Vec<AliasReport> = Vec::new();
    let mut i: usize = 1;
    while i < args.len()
        invariant
            1 <= i <= args.len(),
            words == args@.map_values(|a: String| a@).skip(1),
            state.history == old(state).history,
            (state.aliases@, r@.map_values(|x: AliasReport| x@)) == alias_apply(
                old(state).aliases@,
                words.take(i - 1),
            ),
        decreases args.len() - i,
    {
        assert(words.take(i as int).drop_last() =~= words.take(i - 1));
        assert(words.take(i as int).last() == args@[i as int]@);
        let ghost prev = r@.map_values(|x: AliasReport| x@);
        let arg = &args[i];
        let cs = chars_of(arg.as_str());
        match find_eq(&cs) {
            Some(p) => {
                let name = string_of(&cs, 0, p);
                let value = string_of(&cs, p + 1, cs.len());
                assert(cs@.take(p as int) =~= cs@.subrange(0, p as int));
                assert(cs@.skip(p + 1) =~= cs@.subrange(p + 1, cs.len() as int));
                state.aliases.insert(name, value);
            },
            None => {
                match state.aliases.get(arg.as_str()) {
                    Some(v) => {
                        r.push(AliasReport::Defined(arg.clone(), v.clone()));
                    },
                    None => {
                        r.push(AliasReport::Missing(arg.clone()));
                    },
                }
                assert(r@.map_values(|x: AliasReport| x@) =~= prev.push(r@.last()@));
            },
        }
        i += 1;
    }
    assert(words.take(args.len() - 1) =~= words);
    r
}

/// `alias name=value` defines `name`, and `alias name` then reports
/// `value` for it.
pub proof fn law_alias_define_then_show(m: Map<Seq<char>, Seq<char>>, name: Seq<char>, value: Seq<char>)
    requires
        eq_index(name) == -1,
    ensures
        alias_apply(m, seq![name + seq!['='] + value, name]) == (
            m.insert(name, value),
            seq![AliasNote::Defined(name, value)],
        ),
{
    let def = name + seq!['='] + value;
    let words = seq![def, name];
    if name.len() > 0 {
        assert(eq_index(name) != 0);
    }
    assert forall|j: int| 0 <= j < name.len() implies def[j] != '=' by {
        assert(def[j] == name[j]);
        lemma_eq_index_none(name, j);
    }
    lemma_eq_index(def, name.len() as int);
    assert(def.take(name.len() as int) =~= name);
    assert(def.skip(name.len() as int + 1) =~= value);
    assert(words.drop_last() =~= seq![def]);
    assert(seq![def].drop_last() =~= Seq::<Seq<char>>::empty());
    assert(alias_apply(m, Seq::<Seq<char>>::empty()) == (m, Seq::<AliasNote>::empty()));
    assert(seq![def].last() == def);
    assert(alias_apply(m, seq![def]) == (m.insert(name, value), Seq::<AliasNote>::empty()));
    assert(words.last() == name);
    assert(Seq::<AliasNote>::empty().push(AliasNote::Defined(name, value)) =~= seq![AliasNote::Defined(name, value)]);
}

/// The line `alias name` prints under the aliases `m`: the value of `name`,
/// or that there is none.
pub open spec fn show_note(m: Map<Seq<char>, Seq<char>>, name: Seq<char>) -> AliasNote {
    if m.contains_key(name) {
        AliasNote::Defined(name, m[name])
    } else {
        AliasNote::Missing(name)
    }
}

/// An argument without `=` reports the current value of that name, at
/// whatever position it stands, and changes no alias.
pub proof fn law_alias_show_at_any_position(
    m: Map<Seq<char>, Seq<char>>,
    before: Seq<Seq<char>>,
    name: Seq<char>,
)
    requires
        eq_index(name) == -1,
    ensures
        ({
            let (m1, notes) = alias_apply(m, before);
            alias_apply(m, before.push(name)) == (m1, notes.push(show_note(m1, name)))
        }),
{
    assert(before.push(name).drop_last() =~= before);
}

/// Arguments without `=` change no alias, and each reports, in order, the
/// value that the name has, or that it has none.
pub proof fn law_alias_show_only(m: Map<Seq<char>, Seq<char>>, names: Seq<Seq<char>>)
    requires
        forall|i: int| 0 <= i < names.len() ==> eq_index(#[trigger] names[i]) == -1,
    ensures
        alias_apply(m, names) == (m, names.map_values(|w: Seq<char>| show_note(m, w))),
    decreases names.len(),
{
    if names.len() > 0 {
        let p = names.drop_last();
        assert forall|i: int| 0 <= i < p.len() implies eq_index(#[trigger] p[i]) == -1 by {
            assert(p[i] == names[i]);
        }
        law_alias_show_only(m, p);
        assert(eq_index(names[names.len() - 1]) == -1);
        assert(p.map_values(|w: Seq<char>| show_note(m, w)).push(show_note(m, names.last()))
            =~= names.map_values(|w: Seq<char>| show_note(m, w)));
    } else {
        assert(names.map_values(|w: Seq<char>| show_note(m, w)) =~= Seq::<AliasNote>::empty());
    }
}

/// A name that the aliases hold, given alone, reports its value.
pub proof fn law_alias_show_defined(m: Map<Seq<char>, Seq<char>>, name: Seq<char>)
    requires
        eq_index(name) == -1,
        m.contains_key(name),
    ensures
        alias_apply(m, seq![name]) == (m, seq![AliasNote::Defined(name, m[name])]),
{
    law_alias_show_only(m, seq![name]);
    assert(seq![name].map_values(|w: Seq<char>| show_note(m, w)) =~= seq![AliasNote::Defined(name, m[name])]);
}

proof fn lemma_eq_index_none(s: Seq<char>, j: int)
    requires
        eq_index(s) == -1,
        0 <= j < s.len(),
    ensures
        s[j] != '=',
    decreases s.len(),
{
    if j > 0 {
        assert(s.drop_first()[j - 1] == s[j]);
        lemma_eq_index_none(s.drop_first(), j - 1);
    }
}

impl AliasReport {
    /// The name that a report is about.
    pub open spec fn report_name(self) -> Seq<char> {
        match self {
            AliasReport::Defined(n, _) => n@,
            AliasReport::Missing(n) => n@,
        }
    }
}


/// `a` comes no later than `b` in the lexicographic order of their
/// characters, the order of `str`'s `cmp`.
pub open spec fn name_le(a: Seq<char>, b: Seq<char>) -> bool
    decreases a.len(),
{
    if a.len() == 0 {
        true
    } else if b.len() == 0 {
        false
    } else if a[0] != b[0] {
        (a[0] as int) < (b[0] as int)
    } else {
        name_le(a.drop_first(), b.drop_first())
    }
}

/// `name_le` is total.
pub proof fn lemma_name_le_total(a: Seq<char>, b: Seq<char>)
    ensures
        name_le(a, b) || name_le(b, a),
    decreases a.len(),
{
    if a.len() > 0 && b.len() > 0 {
        if a[0] == b[0] {
            lemma_name_le_total(a.drop_first(), b.drop_first());
        } else {
            assert((a[0] as int) != (b[0] as int));
        }
    }
}

/// `name_le` is transitive.
pub proof fn lemma_name_le_transitive(a: Seq<char>, b: Seq<char>, c: Seq<char>)
    requires
        name_le(a, b),
        name_le(b, c),
    ensures
        name_le(a, c),
    decreases a.len(),
{
    if a.len() > 0 && b.len() > 0 && c.len() > 0 && a[0] == b[0] && b[0] == c[0] {
        lemma_name_le_transitive(a.drop_first(), b.drop_first(), c.drop_first());
    }
}

/// `a` and `b` agree before position `k`, and there the character of `a`
/// has the lower code point.
pub open spec fn below_at(a: Seq<char>, b: Seq<char>, k: int) -> bool {
    &&& 0 <= k < a.len()
    &&& k < b.len()
    &&& a.take(k) == b.take(k)
    &&& (a[k] as int) < (b[k] as int)
}

/// `name_le` is the lexicographic order of code points: `a` comes no later
/// than `b` exactly when `a` is a prefix of `b`, or at the first position
/// where they differ the character of `a` has the lower code point.
pub proof fn law_name_le_lexicographic(a: Seq<char>, b: Seq<char>)
    ensures
        name_le(a, b) <==> (a.is_prefix_of(b) || exists|k: int| #[trigger] below_at(a, b, k)),
    decreases a.len(),
{
    if a.len() == 0 {
        assert(a.is_prefix_of(b));
    } else if b.len() == 0 {
        assert(!a.is_prefix_of(b));
        assert forall|k: int| !#[trigger] below_at(a, b, k) by {}
    } else if a[0] != b[0] {
        assert(!a.is_prefix_of(b)) by {
            if a.is_prefix_of(b) {
                assert(b.subrange(0, a.len() as int)[0] == b[0]);
            }
        }
        if (a[0] as int) < (b[0] as int) {
            assert(a.take(0) =~= b.take(0));
            assert(below_at(a, b, 0));
        } else {
            assert forall|k: int| !#[trigger] below_at(a, b, k) by {
                if k > 0 && below_at(a, b, k) {
                    assert(a.take(k)[0] == b.take(k)[0]);
                }
            }
        }
    } else {
        let a1 = a.drop_first();
        let b1 = b.drop_first();
        law_name_le_lexicographic(a1, b1);
        assert(a.is_prefix_of(b) <==> a1.is_prefix_of(b1)) by {
            if a.is_prefix_of(b) {
                assert(a1 =~= b1.subrange(0, a1.len() as int)) by {
                    assert forall|i: int| 0 <= i < a1.len() implies #[trigger] a1[i] == b1.subrange(0, a1.len() as int)[i] by {
                        assert(a[i + 1] == b.subrange(0, a.len() as int)[i + 1]);
                    }
                }
            }
            if a1.is_prefix_of(b1) {
                assert(a =~= b.subrange(0, a.len() as int)) by {
                    assert forall|i: int| 0 <= i < a.len() implies #[trigger] a[i] == b.subrange(0, a.len() as int)[i] by {
                        if i > 0 {
                            assert(a1[i - 1] == b1.subrange(0, a1.len() as int)[i - 1]);
                        }
                    }
                }
            }
        }
        assert((exists|k: int| #[trigger] below_at(a, b, k)) <==> (exists|k: int| #[trigger] below_at(a1, b1, k))) by {
            if exists|k: int| #[trigger] below_at(a, b, k) {
                let k = choose|k: int| #[trigger] below_at(a, b, k);
                assert(k != 0);
                assert(a1.take(k - 1) =~= b1.take(k - 1)) by {
                    assert forall|i: int| 0 <= i < k - 1 implies #[trigger] a1.take(k - 1)[i] == b1.take(k - 1)[i] by {
                        assert(a.take(k)[i + 1] == b.take(k)[i + 1]);
                    }
                }
                assert(below_at(a1, b1, k - 1));
            }
            if exists|k: int| #[trigger] below_at(a1, b1, k) {
                let k = choose|k: int| #[trigger] below_at(a1, b1, k);
                assert(a.take(k + 1) =~= b.take(k + 1)) by {
                    assert forall|i: int| 0 <= i < k + 1 implies #[trigger] a.take(k + 1)[i] == b.take(k + 1)[i] by {
                        if i > 0 {
                            assert(a1.take(k)[i - 1] == b1.take(k)[i - 1]);
                        }
                    }
                }
                assert(below_at(a, b, k + 1));
            }
        }
    }
}

/// Names that differ in their first character are ordered by the code
/// points of those characters, whatever follows.
pub proof fn law_name_le_first_character(c: char, d: char, x: Seq<char>, y: Seq<char>)
    requires
        c != d,
    ensures
        name_le(seq![c] + x, seq![d] + y) == ((c as int) < (d as int)),
{
    let a = seq![c] + x;
    let b = seq![d] + y;
    assert(a[0] == c && b[0] == d);
}

/// A common prefix does not change the order of two names.
pub proof fn law_name_le_common_prefix(p: Seq<char>, x: Seq<char>, y: Seq<char>)
    ensures
        name_le(p + x, p + y) == name_le(x, y),
    decreases p.len(),
{
    if p.len() > 0 {
        law_name_le_common_prefix(p.drop_first(), x, y);
        assert((p + x).drop_first() =~= p.drop_first() + x);
        assert((p + y).drop_first() =~= p.drop_first() + y);
    } else {
        assert(p + x =~= x);
        assert(p + y =~= y);
    }
}

/// Decides `name_le(a@, b@)`.
pub fn name_le_exec(a: &String, b: &String) -> (r: bool)
    ensures
        r == name_le(a@, b@),
{
    let x = chars_of(a.as_str());
    let y = chars_of(b.as_str());
    let mut i: usize = 0;
    assert(x@.skip(0) =~= x@ && y@.skip(0) =~= y@);
    while i < x.len() && i < y.len() && x[i] == y[i]
        invariant
            i <= x.len(),
            i <= y.len(),
            name_le(a@, b@) == name_le(x@.skip(i as int), y@.skip(i as int)),
            x@ == a@,
            y@ == b@,
        decreases x.len() - i,
    {
        assert(x@.skip(i as int).drop_first() =~= x@.skip(i + 1));
        assert(y@.skip(i as int).drop_first() =~= y@.skip(i + 1));
        i += 1;
    }
    if i == x.len() {
        true
    } else if i == y.len() {
        false
    } else {
        x[i] < y[i]
    }
}

/// Directory entries, as (name, is a directory) pairs, ordered by name.
pub open spec fn sorted_by_name(s: Seq<(Seq<char>, bool)>) -> bool {
    forall|i: int, j: int| 0 <= i < j < s.len() ==> name_le(#[trigger] s[i].0, #[trigger] s[j].0)
}

/// Whether an entry has the name `k`.
pub open spec fn has_name(k: Seq<char>) -> spec_fn((Seq<char>, bool)) -> bool {
    |e: (Seq<char>, bool)| e.0 == k
}

/// Every name comes no later than itself.
pub proof fn lemma_name_le_reflexive(a: Seq<char>)
    ensures
        name_le(a, a),
    decreases a.len(),
{
    if a.len() > 0 {
        lemma_name_le_reflexive(a.drop_first());
    }
}

proof fn lemma_filter_none(s: Seq<(Seq<char>, bool)>, k: Seq<char>)
    requires
        forall|i: int| 0 <= i < s.len() ==> #[trigger] s[i].0 != k,
    ensures
        s.filter(has_name(k)) == Seq::<(Seq<char>, bool)>::empty(),
    decreases s.len(),
{
    reveal(Seq::filter);
    if s.len() > 0 {
        assert(s[s.len() - 1].0 != k);
        assert forall|i: int| 0 <= i < s.len() - 1 implies #[trigger] s.drop_last()[i].0 != k by {
            assert(s.drop_last()[i] == s[i]);
        }
        lemma_filter_none(s.drop_last(), k);
    }
}

/// The entries of `list` in the order it prints them: sorted by name, and
/// entries of the same name in the order they came (a stable sort).
pub fn sort_listing(entries: Vec<(String, bool)>) -> (r: Vec<(String, bool)>)
    ensures
        sorted_by_name(r.deep_view()),
        r.deep_view().to_multiset() == entries.deep_view().to_multiset(),
        forall|k: Seq<char>| #[trigger] r.deep_view().filter(has_name(k)) == entries.deep_view().filter(has_name(k)),
{
    broadcast use vstd::seq_lib::group_to_multiset_ensures;

    let ghost input = entries.deep_view();
    let mut r: Vec<(String, bool)> = Vec::new();
    let mut i: usize = 0;
    assert(input.take(0) =~= Seq::<(Seq<char>, bool)>::empty());
    while i < entries.len()
        invariant
            i <= entries.len(),
            input == entries.deep_view(),
            sorted_by_name(r.deep_view()),
            r.deep_view().to_multiset() == input.take(i as int).to_multiset(),
            forall|k: Seq<char>| #[trigger] r.deep_view().filter(has_name(k)) == input.take(i as int).filter(has_name(k)),
        decreases entries.len() - i,
    {
        let e = (entries[i].0.clone(), entries[i].1);
        let ghost ev = (e.0@, e.1);
        assert(ev == input[i as int]);
        let ghost old_r = r.deep_view();
        let mut p: usize = r.len();
        while p > 0 && !name_le_exec(&r[p - 1].0, &e.0)
            invariant
                p <= r.len(),
                old_r == r.deep_view(),
                ev == (e.0@, e.1),
                forall|k: int| p <= k < r.len() ==> !name_le(#[trigger] old_r[k].0, ev.0),
            decreases p,
        {
            p -= 1;
        }
        r.insert(p, e);
        proof {
            let nr = r.deep_view();
            assert(nr =~= old_r.insert(p as int, ev));
            assert forall|k: int| p <= k < old_r.len() implies name_le(ev.0, #[trigger] old_r[k].0) by {
                lemma_name_le_total(ev.0, old_r[k].0);
            }
            assert forall|a: int, b: int| 0 <= a < b < nr.len() implies name_le(#[trigger] nr[a].0, #[trigger] nr[b].0) by {
                if a < p && b == p {
                    if a < p - 1 {
                        lemma_name_le_transitive(old_r[a].0, old_r[p - 1].0, ev.0);
                    }
                } else if a == p && b > p {
                    assert(nr[b] == old_r[b - 1]);
                } else if a < p && b > p {
                    assert(nr[b] == old_r[b - 1]);
                    if a < p - 1 {
                        lemma_name_le_transitive(old_r[a].0, old_r[p - 1].0, ev.0);
                    }
                    lemma_name_le_transitive(old_r[a].0, ev.0, old_r[b - 1].0);
                } else if a > p {
                    assert(nr[a] == old_r[a - 1] && nr[b] == old_r[b - 1]);
                } else {
                    assert(nr[a] == old_r[a] && nr[b] == old_r[b]);
                }
            }
            vstd::seq_lib::to_multiset_insert(old_r, p as int, ev);
            assert(input.take(i + 1) =~= input.take(i as int).push(ev));
            vstd::seq_lib::to_multiset_build(input.take(i as int), ev);
            let front = old_r.take(p as int);
            let back = old_r.skip(p as int);
            assert(nr =~= front + seq![ev] + back);
            assert(old_r =~= front + back);
            assert forall|k: Seq<char>| #[trigger] nr.filter(has_name(k)) == input.take(i + 1).filter(has_name(k)) by {
                reveal(Seq::filter);
                let f = has_name(k);
                Seq::filter_distributes_over_add(front + seq![ev], back, f);
                Seq::filter_distributes_over_add(front, seq![ev], f);
                Seq::filter_distributes_over_add(front, back, f);
                assert(seq![ev].drop_last() =~= Seq::<(Seq<char>, bool)>::empty());
                assert(input.take(i + 1).drop_last() =~= input.take(i as int));
                if k == ev.0 {
                    assert forall|j: int| 0 <= j < back.len() implies #[trigger] back[j].0 != k by {
                        assert(back[j] == old_r[p + j]);
                        lemma_name_le_reflexive(k);
                    }
                    lemma_filter_none(back, k);
                    assert(seq![ev].filter(f) =~= seq![ev]);
                    assert(front.filter(f) + seq![ev] == front.filter(f).push(ev));
                } else {
                    assert(Seq::<(Seq<char>, bool)>::empty().filter(f) =~= Seq::<(Seq<char>, bool)>::empty());
                    assert(seq![ev].last() == ev);
                    assert(!f(ev));
                    assert(seq![ev].filter(f) =~= Seq::<(Seq<char>, bool)>::empty());
                    assert(front.filter(f) + Seq::<(Seq<char>, bool)>::empty() =~= front.filter(f));
                }
            }
        }
        i += 1;
    }
    assert(input.take(entries.len() as int) =~= input);
    r
}

} // verus!
