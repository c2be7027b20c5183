//! Character-level helpers shared by the report format and the result table.

use vstd::prelude::*;

verus! {

/// Whether `v` holds exactly the characters of `s`.
pub fn chars_match_str(v: &[char], s: &str) -> (r: bool)
    ensures
        r == (v@ == s@),
{
    let n = s.unicode_len();
    if v.len() != n {
        return false;
    }
    let mut i: usize = 0;
    while i < n
        invariant
            n == s@.len(),
            v@.len() == n,
            i <= n,
            forall|k: int| 0 <= k < i ==> v@[k] == s@[k],
        decreases n - i,
    {
        if v[i] != s.get_char(i) {
            return false;
        }
        i = i + 1;
    }
    assert(v@ =~= s@);
    true
}


/// Whether `c` has the Unicode `White_Space` property, the test that
/// `char::is_whitespace` makes: U+0009 to U+000D, U+0020, U+0085, U+00A0,
/// U+1680, U+2000 to U+200A, U+2028, U+2029, U+202F, U+205F and U+3000.
pub open spec fn is_space(c: char) -> bool {
    let u = c as u32;
    ||| 0x09 <= u <= 0x0d
    ||| u == 0x20
    ||| u == 0x85
    ||| u == 0xa0
    ||| u == 0x1680
    ||| 0x2000 <= u <= 0x200a
    ||| u == 0x2028
    ||| u == 0x2029
    ||| u == 0x202f
    ||| u == 0x205f
    ||| u == 0x3000
}

pub fn is_space_char(c: char) -> (r: bool)
    ensures
        r == is_space(c),
{
    let u = c as u32;
    (0x09 <= u && u <= 0x0d) || u == 0x20 || u == 0x85 || u == 0xa0 || u == 0x1680 || (0x2000 <= u
        && u <= 0x200a) || u == 0x2028 || u == 0x2029 || u == 0x202f || u == 0x205f || u == 0x3000
}

/// Whether no character of `s` is white space.
pub open spec fn no_space(s: Seq<char>) -> bool {
    forall|i: int| 0 <= i < s.len() ==> !is_space(#[trigger] s[i])
}

/// The length of the run of non-white-space characters at the start of `s`.
pub open spec fn word_len(s: Seq<char>) -> nat
    decreases s.len(),
{
    if s.len() == 0 || is_space(s[0]) {
        0
    } else {
        1 + word_len(s.drop_first())
    }
}

pub proof fn lemma_word_len_bound(s: Seq<char>)
    ensures
        word_len(s) <= s.len(),
        s.len() > 0 && !is_space(s[0]) ==> word_len(s) >= 1,
    decreases s.len(),
{
    if s.len() > 0 && !is_space(s[0]) {
        lemma_word_len_bound(s.drop_first());
    }
}

/// `word_len` is the position of the first white space, or the length where there is none.
pub proof fn lemma_word_len_exact(s: Seq<char>, k: nat)
    requires
        k <= s.len(),
        forall|i: int| 0 <= i < k ==> !is_space(#[trigger] s[i]),
        k == s.len() || is_space(s[k as int]),
    ensures
        word_len(s) == k,
    decreases k,
{
    if k > 0 {
        lemma_word_len_exact(s.drop_first(), (k - 1) as nat);
    }
}

/// The white-space separated fields of `s`, in order, as `str::split_whitespace`
/// yields them: maximal runs of characters that are not white space.
pub open spec fn fields(s: Seq<char>) -> Seq<Seq<char>>
    decreases s.len(),
{
    if s.len() == 0 {
        seq![]
    } else if is_space(s[0]) {
        fields(s.drop_first())
    } else {
        proof {
            lemma_word_len_bound(s);
        }
        seq![s.take(word_len(s) as int)] + fields(s.skip(word_len(s) as int))
    }
}

/// The white-space separated fields of `s[start..end]`.
pub fn split_fields(s: &[char], start: usize, end: usize) -> (r: Vec<Vec<char>>)
    requires
        start <= end <= s@.len(),
    ensures
        r.deep_view() == fields(s@.subrange(start as int, end as int)),
{
    let mut out: Vec<Vec<char>> = Vec::new();
    let mut i: usize = start;
    while i < end
        invariant
            start <= i <= end <= s@.len(),
            fields(s@.subrange(start as int, end as int)) == out.deep_view() + fields(
                s@.subrange(i as int, end as int),
            ),
        decreases end - i,
    {
        let ghost rest = s@.subrange(i as int, end as int);
        if is_space_char(s[i]) {
            assert(rest.drop_first() =~= s@.subrange(i + 1, end as int));
            i = i + 1;
        } else {
            let mut word: Vec<char> = Vec::new();
            let mut j: usize = i;
            while j < end && !is_space_char(s[j])
                invariant
                    i <= j <= end <= s@.len(),
                    word@ == s@.subrange(i as int, j as int),
                    forall|k: int| i <= k < j ==> !is_space(#[trigger] s@[k]),
                decreases end - j,
            {
                word.push(s[j]);
                j = j + 1;
                assert(word@ =~= s@.subrange(i as int, j as int));
            }
            proof {
                assert forall|k: int| 0 <= k < j - i implies !is_space(#[trigger] rest[k]) by {
                    assert(rest[k] == s@[i + k]);
                }
                lemma_word_len_exact(rest, (j - i) as nat);
                assert(rest.take(j - i) =~= word@);
                assert(rest.skip(j - i) =~= s@.subrange(j as int, end as int));
            }
            let ghost before = out.deep_view();
            let ghost wv = word@;
            out.push(word);
            assert(out.deep_view() =~= before.push(rest.take(j - i))) by {
                assert(out@[out@.len() - 1].deep_view() =~= wv);
            }
            i = j;
        }
    }
    assert(s@.subrange(i as int, end as int) =~= Seq::<char>::empty());
    assert(out.deep_view() + Seq::<Seq<char>>::empty() =~= out.deep_view());
    out
}


/// A field that survives splitting at white space: a single white-space
/// separated token with nothing around it splits back into itself.
pub proof fn lemma_fields_of_word(w: Seq<char>)
    requires
        w.len() > 0,
        no_space(w),
    ensures
        fields(w) == seq![w],
{
    lemma_word_len_exact(w, w.len());
    assert(w.take(w.len() as int) =~= w);
    assert(w.skip(w.len() as int) =~= Seq::<char>::empty());
    assert(fields(w.skip(w.len() as int)) == Seq::<Seq<char>>::empty());
}

/// A token followed by a blank splits into that token and the fields of what follows.
pub proof fn lemma_fields_of_word_then(w: Seq<char>, rest: Seq<char>)
    requires
        w.len() > 0,
        no_space(w),
    ensures
        fields(w + seq![' '] + rest) == seq![w] + fields(rest),
{
    let s = w + seq![' '] + rest;
    assert(s[w.len() as int] == ' ');
    assert forall|i: int| 0 <= i < w.len() implies !is_space(#[trigger] s[i]) by {
        assert(s[i] == w[i]);
    }
    lemma_word_len_exact(s, w.len());
    assert(s.take(w.len() as int) =~= w);
    let tail = s.skip(w.len() as int);
    assert(tail[0] == ' ');
    assert(tail.drop_first() =~= rest);
    assert(is_space(tail[0]));
    assert(fields(tail) == fields(rest));
}

/// The length of the first line of `s`: the characters before the first `'\n'`.
pub open spec fn line_len(s: Seq<char>) -> nat
    decreases s.len(),
{
    if s.len() == 0 || s[0] == '\n' {
        0
    } else {
        1 + line_len(s.drop_first())
    }
}

pub proof fn lemma_line_len_bound(s: Seq<char>)
    ensures
        line_len(s) <= s.len(),
    decreases s.len(),
{
    if s.len() > 0 && s[0] != '\n' {
        lemma_line_len_bound(s.drop_first());
    }
}

/// `line_len` is the position of the first `'\n'`, or the length where there is none.
pub proof fn lemma_line_len_exact(s: Seq<char>, k: nat)
    requires
        k <= s.len(),
        forall|i: int| 0 <= i < k ==> #[trigger] s[i] != '\n',
        k == s.len() || s[k as int] == '\n',
    ensures
        line_len(s) == k,
    decreases k,
{
    if k > 0 {
        lemma_line_len_exact(s.drop_first(), (k - 1) as nat);
    }
}

/// A line that ended in `"\r\n"` loses its `'\r'`.
pub open spec fn strip_cr(l: Seq<char>) -> Seq<char> {
    if l.len() > 0 && l.last() == '\r' {
        l.drop_last()
    } else {
        l
    }
}

/// The lines of `s`, as `str::lines` yields them: split at `'\n'`, a `'\r'` just
/// before a `'\n'` dropped, and no empty line after a final `'\n'`.
pub open spec fn lines(s: Seq<char>) -> Seq<Seq<char>>
    decreases s.len(),
{
    if s.len() == 0 {
        seq![]
    } else {
        proof {
            lemma_line_len_bound(s);
        }
        let k = line_len(s);
        if k == s.len() {
            seq![s]
        } else {
            seq![strip_cr(s.take(k as int))] + lines(s.skip(k + 1int))
        }
    }
}

/// Text that ends a line (or is empty) does not run into what follows it.
pub proof fn lemma_lines_append(a: Seq<char>, b: Seq<char>)
    requires
        a.len() == 0 || a.last() == '\n',
    ensures
        lines(a + b) == lines(a) + lines(b),
    decreases a.len(),
{
    if a.len() == 0 {
        assert(a + b =~= b);
        assert(lines(a) + lines(b) =~= lines(b));
    } else {
        let s = a + b;
        lemma_line_len_bound(a);
        let k = line_len(a);
        if k == a.len() {
            lemma_line_len_first_newline(a);
            assert(false);
        }
        assert forall|i: int| 0 <= i < k implies #[trigger] s[i] != '\n' by {
            lemma_line_len_first_newline(a);
            assert(s[i] == a[i]);
        }
        lemma_line_len_first_newline(a);
        assert(s[k as int] == a[k as int]);
        lemma_line_len_exact(s, k);
        assert(s.take(k as int) =~= a.take(k as int));
        let a2 = a.skip(k + 1int);
        assert(s.skip(k + 1int) =~= a2 + b);
        if a2.len() > 0 {
            assert(a2.last() == a.last());
        }
        lemma_lines_append(a2, b);
        assert(lines(a) == seq![strip_cr(a.take(k as int))] + lines(a2));
        assert(lines(s) == seq![strip_cr(a.take(k as int))] + lines(a2 + b));
        assert(lines(s) =~= lines(a) + lines(b));
    }
}

/// Before `line_len` there is no `'\n'`, and at it (when it is inside `s`) there is one.
pub proof fn lemma_line_len_first_newline(s: Seq<char>)
    ensures
        line_len(s) <= s.len(),
        forall|i: int| 0 <= i < line_len(s) ==> #[trigger] s[i] != '\n',
        line_len(s) < s.len() ==> s[line_len(s) as int] == '\n',
    decreases s.len(),
{
    lemma_line_len_bound(s);
    if s.len() > 0 && s[0] != '\n' {
        lemma_line_len_first_newline(s.drop_first());
        assert forall|i: int| 0 <= i < line_len(s) implies #[trigger] s[i] != '\n' by {
            if i > 0 {
                assert(s[i] == s.drop_first()[i - 1]);
            }
        }
    }
}

/// A line without `'\n'` and not ending in `'\r'`, then `'\n'`: it comes back as the first line.
pub proof fn lemma_lines_of_line_then(l: Seq<char>, rest: Seq<char>)
    requires
        forall|i: int| 0 <= i < l.len() ==> #[trigger] l[i] != '\n',
        l.len() == 0 || l.last() != '\r',
    ensures
        lines(l + seq!['\n'] + rest) == seq![l] + lines(rest),
{
    let s = l + seq!['\n'] + rest;
    assert forall|i: int| 0 <= i < l.len() implies #[trigger] s[i] != '\n' by {
        assert(s[i] == l[i]);
    }
    assert(s[l.len() as int] == '\n');
    lemma_line_len_exact(s, l.len());
    assert(s.take(l.len() as int) =~= l);
    assert(s.skip(l.len() + 1int) =~= rest);
}


/// Whether two texts are equal.
pub fn chars_equal(a: &[char], b: &[char]) -> (r: bool)
    ensures
        r == (a@ == b@),
{
    if a.len() != b.len() {
        return false;
    }
    let mut i: usize = 0;
    while i < a.len()
        invariant
            a@.len() == b@.len(),
            i <= a@.len(),
            forall|k: int| 0 <= k < i ==> a@[k] == b@[k],
        decreases a.len() - i,
    {
        if a[i] != b[i] {
            return false;
        }
        i = i + 1;
    }
    assert(a@ =~= b@);
    true
}

/// A copy of `s[start..end]`.
pub fn copy_range(s: &[char], start: usize, end: usize) -> (r: Vec<char>)
    requires
        start <= end <= s@.len(),
    ensures
        r@ == s@.subrange(start as int, end as int),
{
    let mut r: Vec<char> = Vec::new();
    let mut i: usize = start;
    while i < end
        invariant
            start <= i <= end <= s@.len(),
            r@ == s@.subrange(start as int, i as int),
        decreases end - i,
    {
        r.push(s[i]);
        i = i + 1;
        assert(r@ =~= s@.subrange(start as int, i as int));
    }
    r
}

/// Strict lexicographic order on texts, by code point: the order of `String`s,
/// since UTF-8 keeps the order of code points.
pub open spec fn text_lt(a: Seq<char>, b: Seq<char>) -> bool
    decreases a.len(),
{
    if b.len() == 0 {
        false
    } else if a.len() == 0 {
        true
    } else if (a[0] as int) < (b[0] as int) {
        true
    } else if a[0] == b[0] {
        text_lt(a.drop_first(), b.drop_first())
    } else {
        false
    }
}

pub proof fn lemma_text_lt_irreflexive(a: Seq<char>)
    ensures
        !text_lt(a, a),
    decreases a.len(),
{
    if a.len() > 0 {
        lemma_text_lt_irreflexive(a.drop_first());
    }
}

pub proof fn lemma_text_lt_transitive(a: Seq<char>, b: Seq<char>, c: Seq<char>)
    requires
        text_lt(a, b),
        text_lt(b, c),
    ensures
        text_lt(a, c),
    decreases a.len(),
{
    if a.len() > 0 && b.len() > 0 && c.len() > 0 && a[0] == b[0] && b[0] == c[0] {
        lemma_text_lt_transitive(a.drop_first(), b.drop_first(), c.drop_first());
    }
}

/// Two different texts are ordered one way or the other.
pub proof fn lemma_text_lt_total(a: Seq<char>, b: Seq<char>)
    requires
        a != b,
    ensures
        text_lt(a, b) || text_lt(b, a),
    decreases a.len(),
{
    if a.len() == 0 {
        if b.len() == 0 {
            assert(a =~= b);
        }
    } else if b.len() == 0 {
    } else if a[0] == b[0] {
        if a.drop_first() == b.drop_first() {
            assert(a =~= seq![a[0]] + a.drop_first());
            assert(b =~= seq![b[0]] + b.drop_first());
        }
        lemma_text_lt_total(a.drop_first(), b.drop_first());
    } else {
        assert((a[0] as int) != (b[0] as int));
    }
}

/// Whether `a` comes before `b` in the order of texts.
pub fn text_less(a: &[char], b: &[char]) -> (r: bool)
    ensures
        r == text_lt(a@, b@),
{
    let mut i: usize = 0;
    assert(a@.skip(0) =~= a@);
    assert(b@.skip(0) =~= b@);
    while i < a.len() && i < b.len()
        invariant
            i <= a@.len(),
            i <= b@.len(),
            text_lt(a@, b@) == text_lt(a@.skip(i as int), b@.skip(i as int)),
        decreases a.len() - i,
    {
        let x = a[i];
        let y = b[i];
        if x < y {
            return true;
        }
        if x != y {
            return false;
        }
        assert(a@.skip(i as int).drop_first() =~= a@.skip(i + 1));
        assert(b@.skip(i as int).drop_first() =~= b@.skip(i + 1));
        i = i + 1;
    }
    i < b.len()
}


/// The position of the last `c` in `s`, or -1 where there is none.
pub open spec fn last_index_of(s: Seq<char>, c: char) -> int
    decreases s.len(),
{
    if s.len() == 0 {
        -1
    } else if s.last() == c {
        s.len() - 1
    } else {
        last_index_of(s.drop_last(), c)
    }
}

/// `last_index_of` is the `c` after which no `c` follows.
pub proof fn lemma_last_index_exact(s: Seq<char>, c: char, k: int)
    requires
        -1 <= k < s.len(),
        k >= 0 ==> s[k] == c,
        forall|j: int| k < j < s.len() ==> #[trigger] s[j] != c,
    ensures
        last_index_of(s, c) == k,
    decreases s.len(),
{
    if s.len() > 0 && k < s.len() - 1 {
        assert(s.last() != c);
        lemma_last_index_exact(s.drop_last(), c, k);
    }
}

/// A run's name split at its last `_`: the benchmark before it, the target after it.
/// `None` where the name holds no `_`. This is `rsplit_once('_')`.
pub open spec fn split_run_name(s: Seq<char>) -> Option<(Seq<char>, Seq<char>)> {
    let i = last_index_of(s, '_');
    if i < 0 {
        None
    } else {
        Some((s.take(i), s.skip(i + 1)))
    }
}

/// Splits a run's name at its last `_`.
pub fn split_run_name_at_last_underscore(name: &[char]) -> (r: Option<(Vec<char>, Vec<char>)>)
    ensures
        match r {
            Some((l, t)) => split_run_name(name@) == Some((l@, t@)),
            None => split_run_name(name@) is None,
        },
{
    let n = name.len();
    let mut i: usize = n;
    while i > 0 && name[i - 1] != '_'
        invariant
            i <= n == name@.len(),
            forall|j: int| i <= j < n ==> #[trigger] name@[j] != '_',
        decreases i,
    {
        i = i - 1;
    }
    if i == 0 {
        proof {
            lemma_last_index_exact(name@, '_', -1);
        }
        None
    } else {
        proof {
            lemma_last_index_exact(name@, '_', i - 1);
        }
        let l = copy_range(name, 0, i - 1);
        let t = copy_range(name, i, n);
        assert(l@ =~= name@.take(i - 1));
        assert(t@ =~= name@.skip(i as int));
        Some((l, t))
    }
}

/// A name joined from a benchmark and a target without `_` splits back into the two.
pub proof fn lemma_split_joined_name(logger: Seq<char>, target: Seq<char>)
    requires
        !target.contains('_'),
    ensures
        split_run_name(logger + seq!['_'] + target) == Some((logger, target)),
{
    let s = logger + seq!['_'] + target;
    let k = logger.len() as int;
    assert(s[k] == '_');
    assert forall|j: int| k < j < s.len() implies #[trigger] s[j] != '_' by {
        assert(s[j] == target[j - k - 1]);
        if target[j - k - 1] == '_' {
            assert(target.contains('_'));
        }
    }
    lemma_last_index_exact(s, '_', k);
    assert(s.take(k) =~= logger);
    assert(s.skip(k + 1) =~= target);
}

} // verus!
