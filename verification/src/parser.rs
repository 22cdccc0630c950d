use vstd::prelude::*;

use crate::text::{all_space, chars_of, is_space, is_whitespace, join, lemma_trim_parts, push_char, trim};

verus! {

/// Where a scan of a command line stands with respect to quoting: inside a
/// quote opened by `quote`, or just after an unquoted backslash.
pub struct Scan {
    pub quote: Option<char>,
    pub escape: bool,
}

/// The scan before any character.
pub open spec fn scan_start() -> Scan {
    Scan { quote: None, escape: false }
}

/// A single quote or a double quote.
pub open spec fn is_quote(c: char) -> bool {
    c == '\'' || c == '"'
}

/// How quoting evolves over one character: a backslash outside quotes
/// escapes the next character; a quote character opens a quote that only
/// the same character closes.
pub open spec fn scan_step(q: Scan, c: char) -> Scan {
    if q.escape {
        scan_start()
    } else {
        match q.quote {
            Some(open) => if c == open {
                scan_start()
            } else {
                q
            },
            None => if is_quote(c) {
                Scan { quote: Some(c), escape: false }
            } else if c == '\\' {
                Scan { quote: None, escape: true }
            } else {
                q
            },
        }
    }
}

/// The scan after `s`, from the scan `q`.
pub open spec fn scan_from(q: Scan, s: Seq<char>) -> Scan
    decreases s.len(),
{
    if s.len() == 0 {
        q
    } else {
        scan_step(scan_from(q, s.drop_last()), s.last())
    }
}

/// The scan after all of `s`.
pub open spec fn scan_of(s: Seq<char>) -> Scan {
    scan_from(scan_start(), s)
}

/// The state of word splitting: the finished words, the word being built,
/// whether a word is open, and the quoting.
pub struct Lex {
    pub words: Seq<Seq<char>>,
    pub current: Seq<char>,
    pub in_word: bool,
    pub scan: Scan,
}

/// The state before any character.
pub open spec fn lex_start() -> Lex {
    Lex { words: seq![], current: seq![], in_word: false, scan: scan_start() }
}

/// Word splitting over one character. Quotes and escapes mark a word as
/// started without adding their own character; white space outside quotes
/// ends the open word.
pub open spec fn lex_step(st: Lex, c: char) -> Lex {
    let scan = scan_step(st.scan, c);
    if st.scan.escape {
        Lex { words: st.words, current: st.current.push(c), in_word: true, scan }
    } else if st.scan.quote is Some {
        if c == st.scan.quote->0 {
            Lex { words: st.words, current: st.current, in_word: true, scan }
        } else {
            Lex { words: st.words, current: st.current.push(c), in_word: true, scan }
        }
    } else if is_quote(c) {
        Lex { words: st.words, current: st.current, in_word: true, scan }
    } else if c == '\\' {
        Lex { words: st.words, current: st.current, in_word: st.in_word, scan }
    } else if is_space(c) {
        if st.in_word {
            Lex { words: st.words.push(st.current), current: seq![], in_word: false, scan }
        } else {
            Lex { words: st.words, current: st.current, in_word: false, scan }
        }
    } else {
        Lex { words: st.words, current: st.current.push(c), in_word: true, scan }
    }
}

/// Word splitting of `s` from the state `st`.
pub open spec fn lex_from(st: Lex, s: Seq<char>) -> Lex
    decreases s.len(),
{
    if s.len() == 0 {
        st
    } else {
        lex_step(lex_from(st, s.drop_last()), s.last())
    }
}

/// The words of a finished scan, with the open word closed.
pub open spec fn finish(st: Lex) -> Seq<Seq<char>> {
    if st.in_word {
        st.words.push(st.current)
    } else {
        st.words
    }
}

/// The words of the command line `s`, or `None` when a quote is left open.
pub open spec fn split_words(s: Seq<char>) -> Option<Seq<Seq<char>>> {
    let st = lex_from(lex_start(), s);
    if st.scan.quote is Some {
        None
    } else {
        Some(finish(st))
    }
}

/// The message of a line that leaves a quote open.
pub open spec fn unmatched_quote_message() -> Seq<char> {
    "unmatched quote"@
}

/// Splits a command line into words: white space separates words; single
/// or double quotes keep everything up to the matching quote in one word;
/// a backslash outside quotes takes the next character literally.
pub fn split_line(line: &str) -> (r: Result<Vec<String>, String>)
    ensures
        match split_words(line@) {
            Some(w) => r matches Ok(v) && v.deep_view() == w,
            None => r matches Err(e) && e@ == unmatched_quote_message(),
        },
{
    let chars = chars_of(line);
    let n = chars.len();
    let mut tokens: Vec<String> = Vec::new();
    let mut current = String::new();
    let mut in_token = false;
    let mut quote: Option<char> = None;
    let mut i: usize = 0;
    assert(chars@.take(0) =~= Seq::<char>::empty());
    while i < n
        invariant
            n == chars.len(),
            chars@ == line@,
            i <= n,
            ({
                let st = lex_from(lex_start(), chars@.take(i as int));
                &&& tokens.deep_view() == st.words
                &&& current@ == st.current
                &&& in_token == st.in_word
                &&& quote == st.scan.quote
                &&& (st.scan.escape ==> i == n)
            }),
        decreases n - i,
    {
        let c = chars[i];
        let ghost st = lex_from(lex_start(), chars@.take(i as int));
        assert(chars@.take(i + 1).drop_last() =~= chars@.take(i as int));
        match quote {
            Some(q) => {
                if c == q {
                    quote = None;
                } else {
                    push_char(&mut current, c);
                }
                in_token = true;
                i += 1;
            },
            None => {
                if c == '\'' || c == '"' {
                    quote = Some(c);
                    in_token = true;
                    i += 1;
                } else if c == '\\' {
                    if i + 1 < n {
                        let next = chars[i + 1];
                        push_char(&mut current, next);
                        in_token = true;
                        assert(chars@.take(i + 2).drop_last() =~= chars@.take(i + 1));
                        i += 2;
                    } else {
                        i += 1;
                    }
                } else if is_whitespace(c) {
                    if in_token {
                        let ghost prev = tokens.deep_view();
                        tokens.push(current);
                        current = String::new();
                        in_token = false;
                        assert(tokens.deep_view() =~= prev.push(st.current));
                    }
                    i += 1;
                } else {
                    push_char(&mut current, c);
                    in_token = true;
                    i += 1;
                }
            },
        }
    }
    assert(chars@.take(n as int) =~= chars@);
    if quote.is_some() {
        return Err(String::from_str("unmatched quote"));
    }
    if in_token {
        let ghost prev = tokens.deep_view();
        tokens.push(current);
        assert(tokens.deep_view() =~= prev.push(current@));
    }
    Ok(tokens)
}


/// Word splitting of `a + b` runs over `a`, then over `b`.
pub proof fn lemma_lex_concat(st: Lex, a: Seq<char>, b: Seq<char>)
    ensures
        lex_from(st, a + b) == lex_from(lex_from(st, a), b),
    decreases b.len(),
{
    if b.len() == 0 {
        assert(a + b =~= a);
    } else {
        assert((a + b).drop_last() =~= a + b.drop_last());
        lemma_lex_concat(st, a, b.drop_last());
    }
}

proof fn lemma_lex_one(st: Lex, c: char)
    ensures
        lex_from(st, seq![c]) == lex_step(st, c),
{
    assert(seq![c].drop_last() =~= Seq::<char>::empty());
    assert(lex_from(st, Seq::<char>::empty()) == st);
    assert(seq![c].last() == c);
}

proof fn lemma_lex_two(st: Lex, c: char, d: char)
    ensures
        lex_from(st, seq![c, d]) == lex_step(lex_step(st, c), d),
{
    assert(seq![c, d].drop_last() =~= seq![c]);
    lemma_lex_one(st, c);
}

/// The state between words, after `words`.
pub open spec fn between(words: Seq<Seq<char>>) -> Lex {
    Lex { words, current: seq![], in_word: false, scan: scan_start() }
}

/// The state inside an unquoted word, after `words` and the characters `w`.
pub open spec fn within(words: Seq<Seq<char>>, w: Seq<char>) -> Lex {
    Lex { words, current: w, in_word: true, scan: scan_start() }
}

/// A character that stands for itself outside quotes.
pub open spec fn is_plain(c: char) -> bool {
    !is_space(c) && !is_quote(c) && c != '\\'
}

/// Every character of `s` is plain.
pub open spec fn all_plain(s: Seq<char>) -> bool {
    forall|i: int| 0 <= i < s.len() ==> #[trigger] is_plain(s[i])
}

/// `w` written between double quotes.
pub open spec fn double_quoted(w: Seq<char>) -> Seq<char> {
    seq!['"'] + w + seq!['"']
}

/// `w` with a backslash before each of its characters.
pub open spec fn escaped(w: Seq<char>) -> Seq<char>
    decreases w.len(),
{
    if w.len() == 0 {
        seq![]
    } else {
        escaped(w.drop_last()) + seq!['\\', w.last()]
    }
}

proof fn lemma_plain_run(st: Lex, w: Seq<char>)
    requires
        all_plain(w),
        st.scan == scan_start(),
    ensures
        lex_from(st, w) == (Lex {
            words: st.words,
            current: st.current + w,
            in_word: st.in_word || w.len() > 0,
            scan: scan_start(),
        }),
    decreases w.len(),
{
    if w.len() == 0 {
        assert(st.current + w =~= st.current);
    } else {
        assert(is_plain(w[w.len() - 1]));
        assert forall|i: int| 0 <= i < w.len() - 1 implies #[trigger] is_plain(w.drop_last()[i]) by {
            assert(w.drop_last()[i] == w[i]);
        }
        lemma_plain_run(st, w.drop_last());
        let mid = lex_from(st, w.drop_last());
        assert(lex_from(st, w) == lex_step(mid, w.last()));
        assert((st.current + w.drop_last()).push(w.last()) =~= st.current + w);
    }
}

proof fn lemma_quoted_run(st: Lex, w: Seq<char>, q: char)
    requires
        !w.contains(q),
        st.scan == (Scan { quote: Some(q), escape: false }),
        st.in_word,
    ensures
        lex_from(st, w) == (Lex { words: st.words, current: st.current + w, in_word: true, scan: st.scan }),
    decreases w.len(),
{
    if w.len() == 0 {
        assert(st.current + w =~= st.current);
    } else {
        assert(!w.drop_last().contains(q)) by {
            if w.drop_last().contains(q) {
                let i = choose|i: int| 0 <= i < w.drop_last().len() && w.drop_last()[i] == q;
                assert(w[i] == q);
            }
        }
        assert(w[w.len() - 1] != q);
        lemma_quoted_run(st, w.drop_last(), q);
        let mid = lex_from(st, w.drop_last());
        assert(mid.scan == st.scan);
        assert(lex_from(st, w) == lex_step(mid, w.last()));
        assert(lex_step(mid, w.last()).current == mid.current.push(w.last()));
        assert(lex_step(mid, w.last()).scan == st.scan);
        assert((st.current + w.drop_last()).push(w.last()) =~= st.current + w);
    }
}

proof fn lemma_escaped_run(st: Lex, w: Seq<char>)
    requires
        st.scan == scan_start(),
    ensures
        lex_from(st, escaped(w)) == (Lex {
            words: st.words,
            current: st.current + w,
            in_word: st.in_word || w.len() > 0,
            scan: scan_start(),
        }),
    decreases w.len(),
{
    if w.len() == 0 {
        assert(st.current + w =~= st.current);
    } else {
        lemma_escaped_run(st, w.drop_last());
        lemma_lex_concat(st, escaped(w.drop_last()), seq!['\\', w.last()]);
        let mid = lex_from(st, escaped(w.drop_last()));
        lemma_lex_two(mid, '\\', w.last());
        assert((st.current + w.drop_last()).push(w.last()) =~= st.current + w);
    }
}

/// Splitting the encodings of `ws`, one after another with a space between
/// each two, gives back `ws`, when the encoding of each word turns the state
/// between words into the state inside that word.
pub proof fn lemma_split_join(ws: Seq<Seq<char>>, enc: spec_fn(Seq<char>) -> Seq<char>)
    requires
        forall|t: Seq<Seq<char>>, i: int| 0 <= i < ws.len() ==> #[trigger] lex_from(between(t), enc(ws[i])) == within(t, ws[i]),
    ensures
        split_words(join(ws.map_values(enc), seq![' '])) == Some(ws),
    decreases ws.len(),
{
    let es = ws.map_values(enc);
    if ws.len() == 0 {
        assert(lex_from(lex_start(), join(es, seq![' '])) == lex_start());
        assert(finish(lex_start()) =~= ws);
    } else {
        lemma_join_run(ws, enc, ws.len() as int);
        assert(es.take(ws.len() as int) =~= es);
        assert(ws.take(ws.len() - 1).push(ws.last()) =~= ws);
    }
}

proof fn lemma_join_run(ws: Seq<Seq<char>>, enc: spec_fn(Seq<char>) -> Seq<char>, n: int)
    requires
        1 <= n <= ws.len(),
        forall|t: Seq<Seq<char>>, i: int| 0 <= i < ws.len() ==> #[trigger] lex_from(between(t), enc(ws[i])) == within(t, ws[i]),
    ensures
        lex_from(lex_start(), join(ws.map_values(enc).take(n), seq![' '])) == within(ws.take(n - 1), ws[n - 1]),
    decreases n,
{
    let es = ws.map_values(enc);
    if n == 1 {
        assert(es.take(1)[0] == enc(ws[0]));
        assert(between(seq![]) == lex_start());
        assert(lex_from(between(ws.take(0)), enc(ws[0])) == within(ws.take(0), ws[0]));
        assert(ws.take(0) =~= Seq::<Seq<char>>::empty());
    } else {
        lemma_join_run(ws, enc, n - 1);
        let prefix = join(es.take(n - 1), seq![' ']);
        assert(es.take(n).drop_last() =~= es.take(n - 1));
        assert(es.take(n).last() == enc(ws[n - 1]));
        lemma_lex_concat(lex_start(), prefix + seq![' '], enc(ws[n - 1]));
        lemma_lex_concat(lex_start(), prefix, seq![' ']);
        lemma_lex_one(within(ws.take(n - 2), ws[n - 2]), ' ');
        assert(is_space(' '));
        assert(ws.take(n - 2).push(ws[n - 2]) =~= ws.take(n - 1));
        assert(lex_from(within(ws.take(n - 2), ws[n - 2]), seq![' ']) == between(ws.take(n - 1)));
    }
}

/// A line of white space has no words.
pub proof fn law_blank_line_has_no_words(s: Seq<char>)
    requires
        all_space(s),
    ensures
        split_words(s) == Some(Seq::<Seq<char>>::empty()),
    decreases s.len(),
{
    lemma_blank_run(s);
}

proof fn lemma_blank_run(s: Seq<char>)
    requires
        all_space(s),
    ensures
        lex_from(lex_start(), s) == lex_start(),
    decreases s.len(),
{
    if s.len() > 0 {
        assert(is_space(s[s.len() - 1]));
        assert forall|i: int| 0 <= i < s.len() - 1 implies #[trigger] is_space(s.drop_last()[i]) by {
            assert(s.drop_last()[i] == s[i]);
        }
        lemma_blank_run(s.drop_last());
    }
}

/// Words without white space, quotes or backslashes, written with a space
/// between each two, split back into those words.
pub proof fn law_split_plain_words(ws: Seq<Seq<char>>)
    requires
        forall|i: int| 0 <= i < ws.len() ==> #[trigger] ws[i].len() > 0 && all_plain(ws[i]),
    ensures
        split_words(join(ws, seq![' '])) == Some(ws),
{
    let enc = |w: Seq<char>| w;
    assert forall|t: Seq<Seq<char>>, i: int| 0 <= i < ws.len() implies #[trigger] lex_from(between(t), enc(ws[i])) == within(t, ws[i]) by {
        assert(ws[i].len() > 0 && all_plain(ws[i]));
        lemma_plain_run(between(t), ws[i]);
        assert(seq![] + ws[i] =~= ws[i]);
    }
    lemma_split_join(ws, enc);
    assert(ws.map_values(enc) =~= ws);
}

/// `w` written between two `q` characters.
pub open spec fn quoted(q: char, w: Seq<char>) -> Seq<char> {
    seq![q] + w + seq![q]
}

/// Words without the quote character `q` (a single or a double quote),
/// each written between two `q` with a space between each two, split back
/// into those words: inside quotes every character but the closing quote is
/// kept as it is, backslashes and white space too, and empty words are kept.
pub proof fn law_split_quoted_words(ws: Seq<Seq<char>>, q: char)
    requires
        is_quote(q),
        forall|i: int| 0 <= i < ws.len() ==> !(#[trigger] ws[i]).contains(q),
    ensures
        split_words(join(ws.map_values(|w: Seq<char>| quoted(q, w)), seq![' '])) == Some(ws),
{
    let enc = |w: Seq<char>| quoted(q, w);
    assert forall|t: Seq<Seq<char>>, i: int| 0 <= i < ws.len() implies #[trigger] lex_from(between(t), enc(ws[i])) == within(t, ws[i]) by {
        let w = ws[i];
        assert(!w.contains(q));
        let open = Lex { words: t, current: seq![], in_word: true, scan: Scan { quote: Some(q), escape: false } };
        lemma_lex_one(between(t), q);
        assert(lex_from(between(t), seq![q]) == open);
        lemma_quoted_run(open, w, q);
        lemma_lex_concat(between(t), seq![q], w);
        lemma_lex_concat(between(t), seq![q] + w, seq![q]);
        assert(open.current + w =~= w);
        lemma_lex_one(lex_from(open, w), q);
    }
    lemma_split_join(ws, enc);
}

/// Words without a double quote, each written between double quotes with a
/// space between each two, split back into those words, empty words and
/// white space in them kept.
pub proof fn law_split_double_quoted_words(ws: Seq<Seq<char>>)
    requires
        forall|i: int| 0 <= i < ws.len() ==> !(#[trigger] ws[i]).contains('"'),
    ensures
        split_words(join(ws.map_values(|w: Seq<char>| double_quoted(w)), seq![' '])) == Some(ws),
{
    law_split_quoted_words(ws, '"');
    assert(ws.map_values(|w: Seq<char>| double_quoted(w)) =~= ws.map_values(|w: Seq<char>| quoted('"', w)));
}

/// Words without a single quote, each written between single quotes with a
/// space between each two, split back into those words: backslashes,
/// double quotes and white space inside single quotes are kept as they are.
pub proof fn law_split_single_quoted_words(ws: Seq<Seq<char>>)
    requires
        forall|i: int| 0 <= i < ws.len() ==> !(#[trigger] ws[i]).contains('\''),
    ensures
        split_words(join(ws.map_values(|w: Seq<char>| quoted('\'', w)), seq![' '])) == Some(ws),
{
    law_split_quoted_words(ws, '\'');
}

/// A line that is one word between single quotes splits into exactly that
/// word, whatever other characters it holds.
pub proof fn law_single_quoted_word(w: Seq<char>)
    requires
        !w.contains('\''),
    ensures
        split_words(quoted('\'', w)) == Some(seq![w]),
{
    law_split_quoted_words(seq![w], '\'');
    let ws = seq![w];
    let es = ws.map_values(|x: Seq<char>| quoted('\'', x));
    assert(es =~= seq![quoted('\'', w)]);
    assert(join(es, seq![' ']) == quoted('\'', w));
}

/// Non-empty words, each written with a backslash before every character
/// and a space between each two, split back into those words, whatever
/// characters they hold.
pub proof fn law_split_escaped_words(ws: Seq<Seq<char>>)
    requires
        forall|i: int| 0 <= i < ws.len() ==> (#[trigger] ws[i]).len() > 0,
    ensures
        split_words(join(ws.map_values(|w: Seq<char>| escaped(w)), seq![' '])) == Some(ws),
{
    let enc = |w: Seq<char>| escaped(w);
    assert forall|t: Seq<Seq<char>>, i: int| 0 <= i < ws.len() implies #[trigger] lex_from(between(t), enc(ws[i])) == within(t, ws[i]) by {
        assert(ws[i].len() > 0);
        lemma_escaped_run(between(t), ws[i]);
        assert(seq![] + ws[i] =~= ws[i]);
    }
    lemma_split_join(ws, enc);
}


/// A scan that a line can reach: an escape only stands outside quotes.
pub open spec fn scan_wf(q: Scan) -> bool {
    &&& q.escape ==> q.quote is None
    &&& q.quote matches Some(open) ==> is_quote(open)
}

/// The scan over `a + b` runs over `a`, then over `b`.
pub proof fn lemma_scan_concat(q: Scan, a: Seq<char>, b: Seq<char>)
    ensures
        scan_from(q, a + b) == scan_from(scan_from(q, a), b),
    decreases b.len(),
{
    if b.len() == 0 {
        assert(a + b =~= a);
    } else {
        assert((a + b).drop_last() =~= a + b.drop_last());
        lemma_scan_concat(q, a, b.drop_last());
    }
}

/// Word splitting follows the scan.
pub proof fn lemma_lex_scan(st: Lex, s: Seq<char>)
    ensures
        lex_from(st, s).scan == scan_from(st.scan, s),
    decreases s.len(),
{
    if s.len() > 0 {
        lemma_lex_scan(st, s.drop_last());
    }
}

/// White space leaves a scan between quotes, or outside them, where it is;
/// after an escape it ends the escape.
pub proof fn lemma_scan_spaces(q: Scan, a: Seq<char>)
    requires
        scan_wf(q),
        all_space(a),
    ensures
        scan_wf(scan_from(q, a)),
        (scan_from(q, a).quote is Some) == (q.quote is Some),
        q == scan_start() ==> scan_from(q, a) == scan_start(),
    decreases a.len(),
{
    if a.len() > 0 {
        assert forall|i: int| 0 <= i < a.len() - 1 implies #[trigger] is_space(a.drop_last()[i]) by {
            assert(a.drop_last()[i] == a[i]);
        }
        lemma_scan_spaces(q, a.drop_last());
        let c = a.last();
        assert(is_space(a[a.len() - 1]));
        assert(is_space(c));
    }
}

/// Trimming a line does not change whether it leaves a quote open.
pub proof fn lemma_scan_trim(s: Seq<char>)
    ensures
        (scan_of(trim(s)).quote is Some) == (scan_of(s).quote is Some),
{
    let (a, b) = lemma_trim_parts(s);
    let lead = s.take(a);
    let mid = s.subrange(a, b);
    let trail = s.skip(b);
    assert(s =~= lead + mid + trail);
    lemma_scan_concat(scan_start(), lead + mid, trail);
    lemma_scan_concat(scan_start(), lead, mid);
    lemma_scan_spaces(scan_start(), lead);
    lemma_scan_wf(scan_start(), mid);
    lemma_scan_spaces(scan_of(lead + mid), trail);
}

/// Every scan from a reachable one is reachable.
pub proof fn lemma_scan_wf(q: Scan, s: Seq<char>)
    requires
        scan_wf(q),
    ensures
        scan_wf(scan_from(q, s)),
    decreases s.len(),
{
    if s.len() > 0 {
        lemma_scan_wf(q, s.drop_last());
    }
}

} // verus!
