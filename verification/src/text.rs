use vstd::prelude::*;

verus! {

/// Whether `c` carries the Unicode `White_Space` property, the set of
/// characters that `char::is_whitespace` accepts.
pub open spec fn is_space(c: char) -> bool {
    let n = c as u32;
    ||| 0x09 <= n <= 0x0d
    ||| n == 0x20
    ||| n == 0x85
    ||| n == 0xa0
    ||| n == 0x1680
    ||| 0x2000 <= n <= 0x200a
    ||| n == 0x2028
    ||| n == 0x2029
    ||| n == 0x202f
    ||| n == 0x205f
    ||| n == 0x3000
}

/// Decides `is_space`.
pub fn is_whitespace(c: char) -> (r: bool)
    ensures
        r == is_space(c),
{
    let n = c as u32;
    (0x09 <= n && n <= 0x0d) || n == 0x20 || n == 0x85 || n == 0xa0 || n == 0x1680 || (0x2000
        <= n && n <= 0x200a) || n == 0x2028 || n == 0x2029 || n == 0x202f || n == 0x205f || n
        == 0x3000
}

/// The characters of `s`, in order.
pub fn chars_of(s: &str) -> (r: Vec<char>)
    ensures
        r@ == s@,
{
    let mut v: Vec<char> = Vec::new();
    for c in it: s.chars()
        invariant
            v@ == it.seq().take(it.index() as int),
            it.seq() == s@,
    {
        v.push(c);
    }
    v
}


/// `String::push`: appends the character `c` to the end of `s`.
#[verifier::external_body]
pub(crate) fn push_char(s: &mut String, c: char)
    ensures
        final(s)@ == old(s)@.push(c),
{
    s.push(c);
}

/// A string holding the characters `cs[start..end]`.
pub fn string_of(cs: &Vec<char>, start: usize, end: usize) -> (r: String)
    requires
        start <= end <= cs.len(),
    ensures
        r@ == cs@.subrange(start as int, end as int),
{
    let mut r = String::new();
    let mut i = start;
    while i < end
        invariant
            start <= i <= end <= cs.len(),
            r@ == cs@.subrange(start as int, i as int),
        decreases end - i,
    {
        push_char(&mut r, cs[i]);
        i += 1;
        assert(r@ =~= cs@.subrange(start as int, i as int));
    }
    r
}

/// `s` without its leading characters that are white space.
pub open spec fn trim_start(s: Seq<char>) -> Seq<char>
    decreases s.len(),
{
    if s.len() > 0 && is_space(s[0]) {
        trim_start(s.drop_first())
    } else {
        s
    }
}

/// `s` without its trailing characters that are white space.
pub open spec fn trim_end(s: Seq<char>) -> Seq<char>
    decreases s.len(),
{
    if s.len() > 0 && is_space(s.last()) {
        trim_end(s.drop_last())
    } else {
        s
    }
}

/// `s` without white space at either end, as `str::trim` gives it.
pub open spec fn trim(s: Seq<char>) -> Seq<char> {
    trim_end(trim_start(s))
}

/// All characters of `s` are white space.
pub open spec fn all_space(s: Seq<char>) -> bool {
    forall|i: int| 0 <= i < s.len() ==> #[trigger] is_space(s[i])
}

proof fn lemma_trim_start_from(s: Seq<char>, i: int)
    requires
        0 <= i <= s.len(),
        all_space(s.take(i)),
    ensures
        trim_start(s) == trim_start(s.skip(i)),
    decreases i,
{
    if i > 0 {
        assert(is_space(s.take(i)[0]));
        assert forall|k: int| 0 <= k < i - 1 implies #[trigger] is_space(s.drop_first().take(i - 1)[k]) by {
            assert(s.drop_first().take(i - 1)[k] == s.take(i)[k + 1]);
        }
        lemma_trim_start_from(s.drop_first(), i - 1);
        assert(s.drop_first().skip(i - 1) =~= s.skip(i));
    } else {
        assert(s.skip(0) =~= s);
    }
}

proof fn lemma_trim_end_to(s: Seq<char>, j: int)
    requires
        0 <= j <= s.len(),
        all_space(s.skip(j)),
    ensures
        trim_end(s) == trim_end(s.take(j)),
    decreases s.len() - j,
{
    if j < s.len() {
        assert(is_space(s.skip(j)[s.len() - j - 1]));
        assert forall|k: int| 0 <= k < s.len() - 1 - j implies #[trigger] is_space(s.drop_last().skip(j)[k]) by {
            assert(s.drop_last().skip(j)[k] == s.skip(j)[k]);
        }
        lemma_trim_end_to(s.drop_last(), j);
        assert(s.drop_last().take(j) =~= s.take(j));
    } else {
        assert(s.take(j) =~= s);
    }
}

/// `trim_start(s)` drops the leading white space of `s` and no more.
pub proof fn lemma_trim_start_parts(s: Seq<char>) -> (a: int)
    ensures
        0 <= a <= s.len(),
        trim_start(s) == s.skip(a),
        all_space(s.take(a)),
        a < s.len() ==> !is_space(s[a]),
    decreases s.len(),
{
    if s.len() > 0 && is_space(s[0]) {
        let a1 = lemma_trim_start_parts(s.drop_first());
        assert(s.drop_first().skip(a1) =~= s.skip(a1 + 1));
        assert forall|k: int| 0 <= k < a1 + 1 implies #[trigger] is_space(s.take(a1 + 1)[k]) by {
            if k > 0 {
                assert(s.take(a1 + 1)[k] == s.drop_first().take(a1)[k - 1]);
            }
        }
        a1 + 1
    } else {
        assert(s.skip(0) =~= s);
        0
    }
}

/// `trim_end(s)` drops the trailing white space of `s` and no more.
pub proof fn lemma_trim_end_parts(s: Seq<char>) -> (b: int)
    ensures
        0 <= b <= s.len(),
        trim_end(s) == s.take(b),
        all_space(s.skip(b)),
        b > 0 ==> !is_space(s[b - 1]),
    decreases s.len(),
{
    if s.len() > 0 && is_space(s.last()) {
        let b1 = lemma_trim_end_parts(s.drop_last());
        assert(s.drop_last().take(b1) =~= s.take(b1));
        assert forall|k: int| 0 <= k < s.len() - b1 implies #[trigger] is_space(s.skip(b1)[k]) by {
            if k < s.len() - 1 - b1 {
                assert(s.skip(b1)[k] == s.drop_last().skip(b1)[k]);
            }
        }
        b1
    } else {
        assert(s.take(s.len() as int) =~= s);
        s.len() as int
    }
}

/// `trim(s)` is the middle of `s` between white space at both ends, and
/// neither of its ends is white space.
pub proof fn lemma_trim_parts(s: Seq<char>) -> (r: (int, int))
    ensures
        0 <= r.0 <= r.1 <= s.len(),
        trim(s) == s.subrange(r.0, r.1),
        all_space(s.take(r.0)),
        all_space(s.skip(r.1)),
        r.0 < r.1 ==> !is_space(s[r.0]) && !is_space(s[r.1 - 1]),
{
    let a = lemma_trim_start_parts(s);
    let t = s.skip(a);
    let b = lemma_trim_end_parts(t);
    assert(t.take(b) =~= s.subrange(a, a + b));
    assert forall|k: int| 0 <= k < s.len() - (a + b) implies #[trigger] is_space(s.skip(a + b)[k]) by {
        assert(s.skip(a + b)[k] == t.skip(b)[k]);
    }
    if b > 0 {
        assert(t[b - 1] == s[a + b - 1]);
        assert(t[0] == s[a]);
    }
    (a, a + b)
}

/// Trimming twice trims no more than once.
pub proof fn lemma_trim_idempotent(s: Seq<char>)
    ensures
        trim(trim(s)) == trim(s),
{
    let (a, b) = lemma_trim_parts(s);
    let t = trim(s);
    if t.len() > 0 {
        assert(t[0] == s[a]);
        assert(t.last() == s[b - 1]);
        assert(trim_start(t) == t);
        assert(trim_end(t) == t);
    } else {
        assert(trim_start(t) == t);
        assert(trim_end(t) == t);
    }
}

/// Neither end of a trimmed, non-empty text is white space.
pub proof fn lemma_trimmed_ends(x: Seq<char>)
    requires
        trim(x) == x,
        x.len() > 0,
    ensures
        !is_space(x[0]),
        !is_space(x.last()),
{
    let (a, b) = lemma_trim_parts(x);
    assert(x.subrange(a, b).len() == x.len());
}

/// White space around a trimmed, non-empty text is what trimming removes.
pub proof fn lemma_trim_padded(a: Seq<char>, x: Seq<char>, b: Seq<char>)
    requires
        all_space(a),
        all_space(b),
        trim(x) == x,
        x.len() > 0,
    ensures
        trim(a + x + b) == x,
{
    lemma_trimmed_ends(x);
    let s = a + x + b;
    assert(s.take(a.len() as int) =~= a);
    lemma_trim_start_from(s, a.len() as int);
    assert(s.skip(a.len() as int) =~= x + b);
    assert((x + b)[0] == x[0]);
    assert(trim_start(x + b) == x + b);
    assert((x + b).skip(x.len() as int) =~= b);
    lemma_trim_end_to(x + b, x.len() as int);
    assert((x + b).take(x.len() as int) =~= x);
    assert(x.last() == x[x.len() - 1]);
    assert(trim_end(x) == x);
}

/// Bounds of the trimmed part of `cs`: `trim(cs@) == cs@[start..end]`.
pub fn trim_bounds(cs: &Vec<char>) -> (r: (usize, usize))
    ensures
        r.0 <= r.1 <= cs.len(),
        trim(cs@) == cs@.subrange(r.0 as int, r.1 as int),
        r.0 < r.1 ==> !is_space(cs@[r.0 as int]) && !is_space(cs@[r.1 - 1]),
{
    let n = cs.len();
    let mut a: usize = 0;
    while a < n && is_whitespace(cs[a])
        invariant
            a <= n == cs.len(),
            all_space(cs@.take(a as int)),
        decreases n - a,
    {
        a += 1;
        assert forall|k: int| 0 <= k < a implies #[trigger] is_space(cs@.take(a as int)[k]) by {
            if k < a - 1 {
                assert(cs@.take(a as int)[k] == cs@.take(a - 1)[k]);
            }
        }
    }
    proof {
        lemma_trim_start_from(cs@, a as int);
    }
    let mut b: usize = n;
    while b > a && is_whitespace(cs[b - 1])
        invariant
            a <= b <= n == cs.len(),
            all_space(cs@.skip(b as int)),
        decreases b,
    {
        b -= 1;
        assert forall|k: int| 0 <= k < n - b implies #[trigger] is_space(cs@.skip(b as int)[k]) by {
            if k > 0 {
                assert(cs@.skip(b as int)[k] == cs@.skip(b + 1)[k - 1]);
            }
        }
    }
    proof {
        let t = cs@.skip(a as int);
        assert(t.skip(b - a) =~= cs@.skip(b as int));
        lemma_trim_end_to(t, b - a);
        assert(t.take(b - a) =~= cs@.subrange(a as int, b as int));
        if a == b {
            assert(trim_start(cs@.subrange(a as int, b as int)) == cs@.subrange(a as int, b as int));
        } else {
            assert(!is_space(t[0]));
        }
    }
    (a, b)
}


/// `s` without white space at either end.
pub fn trim_str(s: &str) -> (r: String)
    ensures
        r@ == trim(s@),
{
    let cs = chars_of(s);
    let (a, b) = trim_bounds(&cs);
    string_of(&cs, a, b)
}

/// The words of `list` joined with `sep` between each two.
pub open spec fn join(list: Seq<Seq<char>>, sep: Seq<char>) -> Seq<char>
    decreases list.len(),
{
    if list.len() == 0 {
        seq![]
    } else if list.len() == 1 {
        list[0]
    } else {
        join(list.drop_last(), sep) + sep + list.last()
    }
}

} // verus!
