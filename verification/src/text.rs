//! Character classes and string plumbing shared by the parsers.
//!
//! Every string the parsers look at is handled as its sequence of characters
//! (`Seq<char>` in specifications, `Vec<char>` in code).
use vstd::prelude::*;

verus! {

/// `String::push` appends one character.
pub assume_specification[ String::push ](s: &mut String, ch: char)
    ensures
        final(s)@ == old(s)@.push(ch),
;

// ─── Character classes ──────────────────────────────────────────────────────

/// Unicode `White_Space` (what `char::is_whitespace`, `str::trim` and
/// `str::split_whitespace` use).
pub open spec fn is_ws(c: char) -> bool {
    let u = c as u32;
    ||| (0x09 <= u && u <= 0x0d)
    ||| u == 0x20
    ||| u == 0x85
    ||| u == 0xa0
    ||| u == 0x1680
    ||| (0x2000 <= u && u <= 0x200a)
    ||| u == 0x2028
    ||| u == 0x2029
    ||| u == 0x202f
    ||| u == 0x205f
    ||| u == 0x3000
}

pub fn is_whitespace(c: char) -> (r: bool)
    ensures
        r == is_ws(c),
{
    let u = c as u32;
    (0x09 <= u && u <= 0x0d) || u == 0x20 || u == 0x85 || u == 0xa0 || u == 0x1680 || (0x2000
        <= u && u <= 0x200a) || u == 0x2028 || u == 0x2029 || u == 0x202f || u == 0x205f || u
        == 0x3000
}

pub open spec fn is_upper(c: char) -> bool {
    'A' <= c && c <= 'Z'
}

pub open spec fn is_lower(c: char) -> bool {
    'a' <= c && c <= 'z'
}

pub open spec fn is_alpha(c: char) -> bool {
    is_upper(c) || is_lower(c)
}

pub open spec fn is_digit(c: char) -> bool {
    '0' <= c && c <= '9'
}

/// The value of an ASCII digit.
pub open spec fn digit_value(c: char) -> nat {
    (c as u32 - '0' as u32) as nat
}

/// `char::to_ascii_lowercase`.
pub open spec fn lower(c: char) -> char {
    if is_upper(c) {
        ((c as u32) + 32) as char
    } else {
        c
    }
}

/// `char::to_ascii_uppercase`.
pub open spec fn upper(c: char) -> char {
    if is_lower(c) {
        ((c as u32) - 32) as char
    } else {
        c
    }
}

pub fn is_ascii_alphabetic(c: char) -> (r: bool)
    ensures
        r == is_alpha(c),
{
    ('A' <= c && c <= 'Z') || ('a' <= c && c <= 'z')
}

pub fn is_ascii_digit(c: char) -> (r: bool)
    ensures
        r == is_digit(c),
{
    '0' <= c && c <= '9'
}

pub fn to_lower(c: char) -> (r: char)
    ensures
        r == lower(c),
{
    if 'A' <= c && c <= 'Z' {
        let u: u32 = c as u32 + 32;
        assert(0x61 <= u <= 0x7a);
        let b: u8 = u as u8;
        b as char
    } else {
        c
    }
}

pub fn to_upper(c: char) -> (r: char)
    ensures
        r == upper(c),
{
    if 'a' <= c && c <= 'z' {
        let u: u32 = c as u32 - 32;
        assert(0x41 <= u <= 0x5a);
        let b: u8 = u as u8;
        b as char
    } else {
        c
    }
}

} // verus!

verus! {

// ─── Comparing and slicing ───────────────────────────────────────────────────

pub open spec fn starts_with(s: Seq<char>, p: Seq<char>) -> bool {
    p.len() <= s.len() && s.take(p.len() as int) == p
}

pub fn chars_eq(a: &[char], b: &[char]) -> (r: bool)
    ensures
        r == (a@ == b@),
{
    if a.len() != b.len() {
        return false;
    }
    let mut i: usize = 0;
    while i < a.len()
        invariant
            a.len() == b.len(),
            i <= a.len(),
            forall|j: int| 0 <= j < i ==> a@[j] == b@[j],
        decreases a.len() - i,
    {
        if a[i] != b[i] {
            return false;
        }
        i += 1;
    }
    assert(a@ =~= b@);
    true
}

pub fn has_prefix(s: &[char], p: &[char]) -> (r: bool)
    ensures
        r == starts_with(s@, p@),
{
    if p.len() > s.len() {
        return false;
    }
    let mut i: usize = 0;
    while i < p.len()
        invariant
            p.len() <= s.len(),
            i <= p.len(),
            forall|j: int| 0 <= j < i ==> s@[j] == p@[j],
        decreases p.len() - i,
    {
        if s[i] != p[i] {
            assert(s@.take(p.len() as int)[i as int] != p@[i as int]);
            return false;
        }
        i += 1;
    }
    assert(s@.take(p.len() as int) =~= p@);
    true
}

/// `v[from..to]` as a fresh vector.
pub fn slice_vec(v: &[char], from: usize, to: usize) -> (out: Vec<char>)
    requires
        from <= to <= v.len(),
    ensures
        out@ == v@.subrange(from as int, to as int),
{
    let mut out: Vec<char> = Vec::new();
    let mut i = from;
    while i < to
        invariant
            from <= i <= to <= v.len(),
            out@ == v@.subrange(from as int, i as int),
        decreases to - i,
    {
        out.push(v[i]);
        assert(out@ =~= v@.subrange(from as int, i + 1));
        i += 1;
    }
    out
}

} // verus!

verus! {

// ─── Case mapping ────────────────────────────────────────────────────────────

/// `str::to_ascii_lowercase`.
pub open spec fn lower_seq(s: Seq<char>) -> Seq<char> {
    Seq::new(s.len(), |i: int| lower(s[i]))
}

pub fn lowercase(s: &[char]) -> (out: Vec<char>)
    ensures
        out@ == lower_seq(s@),
{
    let mut out: Vec<char> = Vec::new();
    for i in 0..s.len()
        invariant
            out@ == lower_seq(s@.take(i as int)),
    {
        out.push(to_lower(s[i]));
        assert(out@ =~= lower_seq(s@.take(i + 1)));
    }
    assert(s@.take(s.len() as int) =~= s@);
    out
}

// ─── Trimming ────────────────────────────────────────────────────────────────

pub open spec fn trim_start(s: Seq<char>) -> Seq<char>
    decreases s.len(),
{
    if s.len() > 0 && is_ws(s[0]) {
        trim_start(s.drop_first())
    } else {
        s
    }
}

pub open spec fn trim_end(s: Seq<char>) -> Seq<char>
    decreases s.len(),
{
    if s.len() > 0 && is_ws(s.last()) {
        trim_end(s.drop_last())
    } else {
        s
    }
}

/// `str::trim`: leading and trailing white space removed.
pub open spec fn trim(s: Seq<char>) -> Seq<char> {
    trim_end(trim_start(s))
}

proof fn lemma_trim_start_skip(s: Seq<char>, k: int)
    requires
        0 <= k <= s.len(),
        forall|j: int| 0 <= j < k ==> is_ws(s[j]),
    ensures
        trim_start(s) == trim_start(s.skip(k)),
    decreases k,
{
    if k > 0 {
        assert(s.drop_first().skip(k - 1) =~= s.skip(k));
        lemma_trim_start_skip(s.drop_first(), k - 1);
    } else {
        assert(s.skip(0) =~= s);
    }
}

proof fn lemma_trim_end_take(s: Seq<char>, k: int)
    requires
        0 <= k <= s.len(),
        forall|j: int| k <= j < s.len() ==> is_ws(s[j]),
    ensures
        trim_end(s) == trim_end(s.take(k)),
    decreases s.len() - k,
{
    if k < s.len() {
        assert(s.drop_last().take(k) =~= s.take(k));
        lemma_trim_end_take(s.drop_last(), k);
    } else {
        assert(s.take(k) =~= s);
    }
}

pub fn trim_chars(s: &[char]) -> (out: Vec<char>)
    ensures
        out@ == trim(s@),
{
    let mut a: usize = 0;
    while a < s.len() && is_whitespace(s[a])
        invariant
            a <= s.len(),
            forall|j: int| 0 <= j < a ==> is_ws(s@[j]),
        decreases s.len() - a,
    {
        a += 1;
    }
    proof {
        lemma_trim_start_skip(s@, a as int);
        if a < s.len() {
            assert(!is_ws(s@.skip(a as int)[0]));
        }
    }
    let mut b: usize = s.len();
    while b > a && is_whitespace(s[b - 1])
        invariant
            a <= b <= s.len(),
            forall|j: int| b <= j < s.len() ==> is_ws(s@[j]),
        decreases b,
    {
        b -= 1;
    }
    let ghost t = s@.skip(a as int);
    proof {
        assert(trim_start(s@) == t);
        assert forall|j: int| (b - a) <= j < t.len() implies is_ws(t[j]) by {
            assert(t[j] == s@[j + a]);
        }
        lemma_trim_end_take(t, b - a);
        assert(t.take(b - a) =~= s@.subrange(a as int, b as int));
        if b > a {
            assert(t.take(b - a).last() == s@[b - 1]);
        }
    }
    slice_vec(s, a, b)
}

// ─── Splitting ───────────────────────────────────────────────────────────────

/// The character sequences held by a vector of character vectors.
pub open spec fn views(v: Seq<Vec<char>>) -> Seq<Seq<char>> {
    Seq::new(v.len(), |i: int| v[i]@)
}

/// Length of the run of non-white-space characters at the front of `s`.
pub open spec fn word_len(s: Seq<char>) -> nat
    decreases s.len(),
{
    if s.len() == 0 || is_ws(s[0]) {
        0
    } else {
        1 + word_len(s.drop_first())
    }
}

pub proof fn lemma_word_len_bound(s: Seq<char>)
    ensures
        word_len(s) <= s.len(),
    decreases s.len(),
{
    if s.len() > 0 && !is_ws(s[0]) {
        lemma_word_len_bound(s.drop_first());
    }
}

/// `str::split_whitespace`: the maximal runs of non-white-space characters.
pub open spec fn split_ws(s: Seq<char>) -> Seq<Seq<char>>
    decreases s.len(),
{
    if s.len() == 0 {
        Seq::empty()
    } else if is_ws(s[0]) {
        split_ws(s.drop_first())
    } else {
        let w = word_len(s);
        proof {
            lemma_word_len_bound(s);
        }
        seq![s.take(w as int)] + split_ws(s.skip(w as int))
    }
}

proof fn lemma_word_len_run(s: Seq<char>, k: int)
    requires
        0 <= k <= s.len(),
        forall|j: int| 0 <= j < k ==> !is_ws(s[j]),
        k == s.len() || is_ws(s[k]),
    ensures
        word_len(s) == k,
    decreases k,
{
    if k > 0 {
        lemma_word_len_run(s.drop_first(), k - 1);
    }
}

pub fn split_whitespace(s: &[char]) -> (out: Vec<Vec<char>>)
    ensures
        views(out@) == split_ws(s@),
{
    let mut out: Vec<Vec<char>> = Vec::new();
    let mut i: usize = 0;
    assert(s@.skip(0) =~= s@);
    while i < s.len()
        invariant
            i <= s.len(),
            views(out@) + split_ws(s@.skip(i as int)) == split_ws(s@),
        decreases s.len() - i,
    {
        let ghost rest = s@.skip(i as int);
        if is_whitespace(s[i]) {
            assert(rest.drop_first() =~= s@.skip(i + 1));
            i += 1;
        } else {
            let mut j = i;
            while j < s.len() && !is_whitespace(s[j])
                invariant
                    i <= j <= s.len(),
                    forall|m: int| i <= m < j ==> !is_ws(s@[m]),
                decreases s.len() - j,
            {
                j += 1;
            }
            proof {
                lemma_word_len_run(rest, j - i);
                assert(rest.take(j - i) =~= s@.subrange(i as int, j as int));
                assert(rest.skip(j - i) =~= s@.skip(j as int));
            }
            let word = slice_vec(s, i, j);
            let ghost before = views(out@);
            out.push(word);
            assert(views(out@) =~= before.push(word@));
            assert(views(out@) + split_ws(s@.skip(j as int)) =~= before + split_ws(rest));
            i = j;
        }
    }
    assert(split_ws(s@.skip(i as int)) =~= Seq::<Seq<char>>::empty());
    assert(views(out@) + Seq::<Seq<char>>::empty() =~= views(out@));
    out
}

/// Index of the first line feed in `s`, or its length.
pub open spec fn first_nl(s: Seq<char>) -> nat
    decreases s.len(),
{
    if s.len() == 0 || s[0] == '\n' {
        0
    } else {
        1 + first_nl(s.drop_first())
    }
}

pub proof fn lemma_first_nl_bound(s: Seq<char>)
    ensures
        first_nl(s) <= s.len(),
        first_nl(s) < s.len() ==> s[first_nl(s) as int] == '\n',
        forall|j: int| 0 <= j < first_nl(s) ==> s[j] != '\n',
    decreases s.len(),
{
    if s.len() > 0 && s[0] != '\n' {
        lemma_first_nl_bound(s.drop_first());
        assert forall|j: int| 0 <= j < first_nl(s) implies s[j] != '\n' by {
            if j > 0 {
                assert(s[j] == s.drop_first()[j - 1]);
            }
        }
    }
}

/// A line without the carriage return that ended it.
pub open spec fn strip_cr(line: Seq<char>) -> Seq<char> {
    if line.len() > 0 && line.last() == '\r' {
        line.drop_last()
    } else {
        line
    }
}

/// `str::lines`: split at `\n`; a `\r` just before the `\n` goes too, and a
/// final line feed does not start an empty line.
pub open spec fn lines(s: Seq<char>) -> Seq<Seq<char>>
    decreases s.len(),
{
    if s.len() == 0 {
        Seq::empty()
    } else {
        let k = first_nl(s);
        proof {
            lemma_first_nl_bound(s);
        }
        if k < s.len() {
            seq![strip_cr(s.take(k as int))] + lines(s.skip((k + 1) as int))
        } else {
            seq![s]
        }
    }
}

proof fn lemma_first_nl_run(s: Seq<char>, k: int)
    requires
        0 <= k <= s.len(),
        forall|j: int| 0 <= j < k ==> s[j] != '\n',
        k == s.len() || s[k] == '\n',
    ensures
        first_nl(s) == k,
    decreases k,
{
    if k > 0 {
        lemma_first_nl_run(s.drop_first(), k - 1);
    }
}

/// Text that is empty or ends a line splits into its own lines followed by
/// the lines of whatever comes after it.
pub proof fn lemma_lines_append(p: Seq<char>, q: Seq<char>)
    requires
        p.len() == 0 || p.last() == '\n',
    ensures
        lines(p + q) == lines(p) + lines(q),
    decreases p.len(),
{
    if p.len() == 0 {
        assert(p + q =~= q);
        assert(lines(p) + lines(q) =~= lines(q));
    } else {
        lemma_first_nl_bound(p);
        let k = first_nl(p);
        if k == p.len() {
            assert(p[p.len() - 1] != '\n');
        }
        let pq = p + q;
        assert forall|j: int| 0 <= j < k implies pq[j] != '\n' by {
            assert(pq[j] == p[j]);
        }
        assert(pq[k as int] == p[k as int]);
        lemma_first_nl_run(pq, k as int);
        let rest = p.skip((k + 1) as int);
        assert(pq.take(k as int) =~= p.take(k as int));
        assert(pq.skip((k + 1) as int) =~= rest + q);
        if rest.len() > 0 {
            assert(rest.last() == p.last());
        }
        lemma_lines_append(rest, q);
        assert(lines(pq) == seq![strip_cr(p.take(k as int))] + lines(rest + q));
        assert(lines(p) == seq![strip_cr(p.take(k as int))] + lines(rest));
        assert(lines(pq) =~= lines(p) + lines(q));
    }
}

/// A line without a line feed, followed by one, is one line.
pub proof fn lemma_lines_one(e: Seq<char>)
    requires
        !e.contains('\n'),
    ensures
        lines(e.push('\n')) == seq![strip_cr(e)],
{
    let t = e.push('\n');
    assert forall|j: int| 0 <= j < e.len() implies t[j] != '\n' by {
        assert(t[j] == e[j]);
        if t[j] == '\n' {
            assert(e.contains(e[j]));
        }
    }
    lemma_first_nl_run(t, e.len() as int);
    assert(t.take(e.len() as int) =~= e);
    assert(t.skip(e.len() + 1int) =~= Seq::<char>::empty());
    assert(lines(t) == seq![strip_cr(e)] + lines(Seq::<char>::empty()));
    assert(lines(t) =~= seq![strip_cr(e)]);
}

/// A line feed added to text either adds an empty last line (after a line
/// feed, or to empty text) or ends the last line, dropping its carriage
/// return.
pub proof fn lemma_lines_nl(a: Seq<char>)
    ensures
        (a.len() == 0 || a.last() == '\n') ==> lines(a.push('\n')) == lines(a).push(
            Seq::<char>::empty(),
        ),
        (a.len() > 0 && a.last() != '\n') ==> lines(a).len() > 0 && lines(a.push('\n')) == lines(
            a,
        ).drop_last().push(strip_cr(lines(a).last())),
    decreases a.len(),
{
    let t = a.push('\n');
    if a.len() == 0 {
        assert(!a.contains('\n'));
        lemma_lines_one(a);
        assert(strip_cr(a) =~= Seq::<char>::empty());
        assert(lines(a).push(Seq::<char>::empty()) =~= seq![Seq::<char>::empty()]);
    } else {
        lemma_first_nl_bound(a);
        let k = first_nl(a);
        if k < a.len() {
            assert forall|j: int| 0 <= j < k implies t[j] != '\n' by {
                assert(t[j] == a[j]);
            }
            assert(t[k as int] == a[k as int]);
            lemma_first_nl_run(t, k as int);
            lemma_first_nl_bound(t);
            let rest = a.skip((k + 1) as int);
            assert(t.take(k as int) =~= a.take(k as int));
            assert(t.skip((k + 1) as int) =~= rest.push('\n'));
            let h = strip_cr(a.take(k as int));
            assert(lines(a) == seq![h] + lines(rest));
            assert(lines(t) == seq![h] + lines(rest.push('\n')));
            lemma_lines_nl(rest);
            if rest.len() == 0 {
                assert(k == a.len() - 1);
                assert(lines(t) =~= lines(a).push(Seq::<char>::empty()));
            } else {
                assert(rest.last() == a.last());
                if a.last() == '\n' {
                    assert(lines(t) =~= lines(a).push(Seq::<char>::empty()));
                } else {
                    assert(lines(a).last() == lines(rest).last());
                    assert(lines(t) =~= lines(a).drop_last().push(strip_cr(lines(a).last())));
                }
            }
        } else {
            assert(a[a.len() - 1] != '\n');
            assert(!a.contains('\n')) by {
                if a.contains('\n') {
                    let j = choose|j: int| 0 <= j < a.len() && a[j] == '\n';
                }
            }
            lemma_lines_one(a);
            assert(lines(a) == seq![a]);
            assert(lines(t) =~= lines(a).drop_last().push(strip_cr(lines(a).last())));
        }
    }
}

/// Trimming ignores one more blank at the end.
pub proof fn lemma_trim_push_ws(y: Seq<char>, c: char)
    requires
        is_ws(c),
    ensures
        trim(y.push(c)) == trim(y),
{
    lemma_trim_start_push_ws(y, c);
    let z = trim_start(y);
    if trim_start(y.push(c)) == z.push(c) {
        assert(z.push(c).drop_last() =~= z);
    }
}

proof fn lemma_trim_start_push_ws(y: Seq<char>, c: char)
    requires
        is_ws(c),
    ensures
        trim_start(y.push(c)) == trim_start(y).push(c) || (trim_start(y).len() == 0
            && trim_start(y.push(c)).len() == 0),
    decreases y.len(),
{
    if y.len() == 0 {
        assert(y.push(c).drop_first() =~= Seq::<char>::empty());
        assert(trim_start(Seq::<char>::empty()) == Seq::<char>::empty());
        assert(trim_start(y.push(c)) == trim_start(Seq::<char>::empty()));
    } else {
        assert(y.push(c)[0] == y[0]);
        assert(y.push(c).drop_first() =~= y.drop_first().push(c));
        if is_ws(y[0]) {
            lemma_trim_start_push_ws(y.drop_first(), c);
        }
    }
}

pub fn split_lines(s: &[char]) -> (out: Vec<Vec<char>>)
    ensures
        views(out@) == lines(s@),
        out.len() <= s.len(),
{
    let mut out: Vec<Vec<char>> = Vec::new();
    let mut i: usize = 0;
    assert(s@.skip(0) =~= s@);
    while i < s.len()
        invariant
            i <= s.len(),
            out.len() <= i,
            views(out@) + lines(s@.skip(i as int)) == lines(s@),
        decreases s.len() - i,
    {
        let ghost rest = s@.skip(i as int);
        let mut j = i;
        while j < s.len() && s[j] != '\n'
            invariant
                i <= j <= s.len(),
                forall|m: int| i <= m < j ==> s@[m] != '\n',
            decreases s.len() - j,
        {
            j += 1;
        }
        proof {
            lemma_first_nl_run(rest, j - i);
            assert(rest.take(j - i) =~= s@.subrange(i as int, j as int));
        }
        let ghost before = views(out@);
        if j < s.len() {
            let mut end = j;
            if end > i && s[end - 1] == '\r' {
                end -= 1;
            }
            let line = slice_vec(s, i, end);
            proof {
                let t = s@.subrange(i as int, j as int);
                if j > i && s@[j - 1] == '\r' {
                    assert(t.drop_last() =~= s@.subrange(i as int, end as int));
                } else {
                    assert(t =~= s@.subrange(i as int, end as int));
                }
                assert(rest.skip(j - i + 1) =~= s@.skip(j + 1));
            }
            out.push(line);
            assert(views(out@) =~= before.push(line@));
            assert(views(out@) + lines(s@.skip(j + 1)) =~= before + lines(rest));
            i = j + 1;
        } else {
            let line = slice_vec(s, i, j);
            proof {
                assert(rest =~= s@.subrange(i as int, j as int));
                assert(s@.skip(j as int) =~= Seq::<char>::empty());
            }
            out.push(line);
            assert(views(out@) =~= before.push(line@));
            assert(views(out@) + lines(s@.skip(j as int)) =~= before + lines(rest));
            i = j;
        }
    }
    assert(lines(s@.skip(i as int)) =~= Seq::<Seq<char>>::empty());
    assert(views(out@) + Seq::<Seq<char>>::empty() =~= views(out@));
    out
}

} // verus!

verus! {

// ─── Joining, replacing, searching ───────────────────────────────────────────

/// `[T]::join(sep)` on strings.
pub open spec fn join(t: Seq<Seq<char>>, sep: Seq<char>) -> Seq<char>
    decreases t.len(),
{
    if t.len() == 0 {
        Seq::empty()
    } else if t.len() == 1 {
        t[0]
    } else {
        join(t.drop_last(), sep) + sep + t.last()
    }
}

/// The strings `t[from..]`, joined with `sep`.
pub fn join_from(t: &Vec<Vec<char>>, from: usize, sep: &[char]) -> (out: Vec<char>)
    requires
        from <= t.len(),
    ensures
        out@ == join(views(t@).skip(from as int), sep@),
{
    let mut out: Vec<char> = Vec::new();
    let mut i = from;
    assert(views(t@).subrange(from as int, from as int) =~= Seq::<Seq<char>>::empty());
    while i < t.len()
        invariant
            from <= i <= t.len(),
            out@ == join(views(t@).subrange(from as int, i as int), sep@),
        decreases t.len() - i,
    {
        let ghost prev = views(t@).subrange(from as int, i as int);
        let ghost next = views(t@).subrange(from as int, i + 1);
        assert(next.drop_last() =~= prev);
        if i > from {
            for k in 0..sep.len()
                invariant
                    out@ == join(prev, sep@) + sep@.take(k as int),
            {
                out.push(sep[k]);
                assert(out@ =~= join(prev, sep@) + sep@.take(k + 1));
            }
            assert(sep@.take(sep.len() as int) =~= sep@);
        }
        let ghost mid = out@;
        let w = &t[i];
        for k in 0..w.len()
            invariant
                out@ == mid + w@.take(k as int),
        {
            out.push(w[k]);
            assert(out@ =~= mid + w@.take(k + 1));
        }
        assert(w@.take(w.len() as int) =~= w@);
        if i == from {
            assert(out@ =~= join(next, sep@));
        } else {
            assert(out@ =~= join(next, sep@));
        }
        i += 1;
    }
    assert(views(t@).subrange(from as int, t.len() as int) =~= views(t@).skip(from as int));
    out
}

/// `str::replace`: every occurrence of `pat`, left to right and without
/// overlap, replaced by `rep`.
pub open spec fn replace_all(s: Seq<char>, pat: Seq<char>, rep: Seq<char>) -> Seq<char>
    decreases s.len(),
{
    if s.len() == 0 {
        Seq::empty()
    } else if pat.len() > 0 && starts_with(s, pat) {
        rep + replace_all(s.skip(pat.len() as int), pat, rep)
    } else {
        seq![s[0]] + replace_all(s.drop_first(), pat, rep)
    }
}

fn has_prefix_at(s: &[char], i: usize, p: &[char]) -> (r: bool)
    requires
        i <= s.len(),
    ensures
        r == starts_with(s@.skip(i as int), p@),
{
    if p.len() > s.len() - i {
        return false;
    }
    let mut k: usize = 0;
    while k < p.len()
        invariant
            i + p.len() <= s.len(),
            k <= p.len(),
            forall|j: int| 0 <= j < k ==> s@[i + j] == p@[j],
        decreases p.len() - k,
    {
        if s[i + k] != p[k] {
            assert(s@.skip(i as int).take(p.len() as int)[k as int] != p@[k as int]);
            return false;
        }
        k += 1;
    }
    assert(s@.skip(i as int).take(p.len() as int) =~= p@);
    true
}

pub fn replace_chars(s: &[char], pat: &[char], rep: &[char]) -> (out: Vec<char>)
    requires
        pat.len() > 0,
    ensures
        out@ == replace_all(s@, pat@, rep@),
{
    let mut out: Vec<char> = Vec::new();
    let mut i: usize = 0;
    assert(s@.skip(0) =~= s@);
    while i < s.len()
        invariant
            i <= s.len(),
            pat@.len() > 0,
            out@ + replace_all(s@.skip(i as int), pat@, rep@) == replace_all(s@, pat@, rep@),
        decreases s.len() - i,
    {
        let ghost rest = s@.skip(i as int);
        let ghost before = out@;
        if has_prefix_at(s, i, pat) {
            for k in 0..rep.len()
                invariant
                    out@ == before + rep@.take(k as int),
            {
                out.push(rep[k]);
                assert(out@ =~= before + rep@.take(k + 1));
            }
            assert(rep@.take(rep.len() as int) =~= rep@);
            assert(rest.skip(pat.len() as int) =~= s@.skip(i + pat.len()));
            assert(out@ + replace_all(s@.skip(i + pat.len()), pat@, rep@) =~= before
                + replace_all(rest, pat@, rep@));
            i += pat.len();
        } else {
            out.push(s[i]);
            assert(rest.drop_first() =~= s@.skip(i + 1));
            assert(out@ + replace_all(s@.skip(i + 1), pat@, rep@) =~= before + replace_all(
                rest,
                pat@,
                rep@,
            ));
            i += 1;
        }
    }
    assert(replace_all(s@.skip(i as int), pat@, rep@) =~= Seq::<char>::empty());
    assert(out@ + Seq::<char>::empty() =~= out@);
    out
}

/// `str::find`: where `pat` first occurs in `s`.
pub open spec fn find(s: Seq<char>, pat: Seq<char>) -> Option<nat>
    decreases s.len(),
{
    if starts_with(s, pat) {
        Some(0)
    } else if s.len() == 0 {
        None
    } else {
        match find(s.drop_first(), pat) {
            Some(k) => Some(k + 1),
            None => None,
        }
    }
}

pub fn find_chars(s: &[char], pat: &[char]) -> (r: Option<usize>)
    ensures
        match find(s@, pat@) {
            Some(k) => r == Some(k as usize) && k + pat@.len() <= s@.len(),
            None => r is None,
        },
{
    let mut i: usize = 0;
    assert(s@.skip(0) =~= s@);
    while i <= s.len()
        invariant
            i <= s.len() + 1,
            i <= s.len() ==> match find(s@, pat@) {
                Some(k) => match find(s@.skip(i as int), pat@) {
                    Some(k2) => k == k2 + i,
                    None => false,
                },
                None => find(s@.skip(i as int), pat@) is None,
            },
            i > s.len() ==> find(s@, pat@) is None,
        decreases s.len() + 1 - i,
    {
        let ghost rest = s@.skip(i as int);
        if has_prefix_at(s, i, pat) {
            return Some(i);
        }
        if i == s.len() {
            return None;
        }
        assert(rest.drop_first() =~= s@.skip(i + 1));
        i += 1;
    }
    None
}

// ─── Numbers as text ─────────────────────────────────────────────────────────

/// The value of a string of ASCII digits.
pub open spec fn digits_value(s: Seq<char>) -> nat
    decreases s.len(),
{
    if s.len() == 0 {
        0
    } else {
        digits_value(s.drop_last()) * 10 + digit_value(s.last())
    }
}

pub open spec fn all_digits(s: Seq<char>) -> bool {
    forall|i: int| 0 <= i < s.len() ==> is_digit(s[i])
}

/// `usize::from_str`: an optional `+`, then one or more ASCII digits, with a
/// value that fits in `usize`.
pub open spec fn parse_usize(s: Seq<char>) -> Option<usize> {
    let d = if s.len() > 0 && s[0] == '+' {
        s.drop_first()
    } else {
        s
    };
    if d.len() > 0 && all_digits(d) && digits_value(d) <= usize::MAX {
        Some(digits_value(d) as usize)
    } else {
        None
    }
}

proof fn lemma_digits_value_prefix(s: Seq<char>, i: int)
    requires
        0 <= i <= s.len(),
        all_digits(s),
    ensures
        digits_value(s.take(i)) <= digits_value(s),
    decreases s.len() - i,
{
    if i < s.len() {
        assert(s.drop_last().take(i) =~= s.take(i));
        lemma_digits_value_prefix(s.drop_last(), i);
    } else {
        assert(s.take(i) =~= s);
    }
}

pub fn parse_usize_chars(s: &[char]) -> (r: Option<usize>)
    ensures
        r == parse_usize(s@),
{
    let start: usize = if s.len() > 0 && s[0] == '+' {
        1
    } else {
        0
    };
    let ghost d = s@.skip(start as int);
    proof {
        if start == 1 {
            assert(d =~= s@.drop_first());
        } else {
            assert(d =~= s@);
        }
    }
    if start == s.len() {
        return None;
    }
    let mut acc: usize = 0;
    let mut i = start;
    while i < s.len()
        invariant
            start <= i <= s.len(),
            d == s@.skip(start as int),
            d == (if s@.len() > 0 && s@[0] == '+' {
                s@.drop_first()
            } else {
                s@
            }),
            d.len() > 0,
            all_digits(d.take(i - start)),
            acc == digits_value(d.take(i - start)),
        decreases s.len() - i,
    {
        let c = s[i];
        if !is_ascii_digit(c) {
            assert(d[i - start] == c);
            assert(!is_digit(d[i - start]));
            assert(!all_digits(d));
            return None;
        }
        let dv: u32 = c as u32 - '0' as u32;
        let ghost next = d.take(i + 1 - start);
        assert(next.drop_last() =~= d.take(i - start));
        assert(next.last() == c);
        if acc > (usize::MAX - dv as usize) / 10 {
            proof {
                assert(all_digits(next));
                assert(acc * 10 + dv > usize::MAX) by (nonlinear_arith)
                    requires
                        acc > (usize::MAX - dv as usize) / 10,
                        dv <= 9,
                ;
                if all_digits(d) {
                    lemma_digits_value_prefix(d, i + 1 - start);
                }
            }
            return None;
        }
        acc = acc * 10 + dv as usize;
        i += 1;
    }
    assert(d.take(s.len() - start) =~= d);
    Some(acc)
}

pub open spec fn digit_char(n: nat) -> char {
    ((n % 10) as u32 + '0' as u32) as char
}

/// The decimal representation of `n` (what `format!("{}", n)` prints).
pub open spec fn dec(n: nat) -> Seq<char>
    decreases n,
{
    if n < 10 {
        seq![digit_char(n)]
    } else {
        dec(n / 10).push(digit_char(n))
    }
}

pub fn push_decimal(out: &mut Vec<char>, n: usize)
    ensures
        final(out)@ == old(out)@ + dec(n as nat),
    decreases n,
{
    if n >= 10 {
        push_decimal(out, n / 10);
    }
    let d: u32 = (n % 10) as u32 + '0' as u32;
    assert(0x30 <= d <= 0x39);
    let b: u8 = d as u8;
    out.push(b as char);
    proof {
        if n >= 10 {
            assert(final(out)@ =~= old(out)@ + dec(n as nat));
        } else {
            assert(final(out)@ =~= old(out)@ + dec(n as nat));
        }
    }
}

} // verus!

verus! {

/// The characters of `s`, in order.
pub fn chars_of(s: &str) -> (out: Vec<char>)
    ensures
        out@ == s@,
{
    let mut out: Vec<char> = Vec::new();
    for c in it: s.chars()
        invariant
            out@ == it.seq().take(it.index() as int),
    {
        out.push(c);
    }
    out
}

/// The string whose characters are `v`.
pub fn string_of(v: &[char]) -> (s: String)
    ensures
        s@ == v@,
{
    let mut s = String::new();
    for i in 0..v.len()
        invariant
            s@ == v@.take(i as int),
    {
        s.push(v[i]);
        assert(s@ =~= v@.take(i + 1));
    }
    s
}

} // verus!

verus! {

proof fn lemma_trim_start_first(s: Seq<char>)
    ensures
        trim_start(s).len() > 0 ==> !is_ws(trim_start(s)[0]),
        trim_start(s).len() <= s.len(),
    decreases s.len(),
{
    if s.len() > 0 && is_ws(s[0]) {
        lemma_trim_start_first(s.drop_first());
    }
}

proof fn lemma_trim_end_prefix(s: Seq<char>)
    ensures
        trim_end(s).len() <= s.len(),
        forall|i: int| 0 <= i < trim_end(s).len() ==> trim_end(s)[i] == s[i],
    decreases s.len(),
{
    if s.len() > 0 && is_ws(s.last()) {
        lemma_trim_end_prefix(s.drop_last());
        assert forall|i: int| 0 <= i < trim_end(s).len() implies trim_end(s)[i] == s[i] by {
            assert(s.drop_last()[i] == s[i]);
        }
    }
}

/// A trimmed string that is not empty starts with a non-space.
pub proof fn lemma_trim_first(s: Seq<char>)
    ensures
        trim(s).len() > 0 ==> !is_ws(trim(s)[0]),
{
    lemma_trim_start_first(s);
    lemma_trim_end_prefix(trim_start(s));
}

/// The first word of a string that starts with a non-space starts with that
/// character.
pub proof fn lemma_split_ws_first(t: Seq<char>)
    requires
        t.len() > 0,
        !is_ws(t[0]),
    ensures
        split_ws(t).len() > 0,
        split_ws(t)[0].len() > 0,
        split_ws(t)[0][0] == t[0],
{
    lemma_word_len_bound(t);
    assert(word_len(t) >= 1);
}

} // verus!

verus! {

// ─── Facts on words and lines ────────────────────────────────────────────────

/// A white-space character always separates words.
pub proof fn lemma_split_ws_sep(a: Seq<char>, c: char, b: Seq<char>)
    requires
        is_ws(c),
    ensures
        split_ws(a + seq![c] + b) == split_ws(a) + split_ws(b),
    decreases a.len(),
{
    let s = a + seq![c] + b;
    if a.len() == 0 {
        assert(s.drop_first() =~= b);
        assert(split_ws(a) =~= Seq::<Seq<char>>::empty());
        assert(split_ws(s) =~= split_ws(a) + split_ws(b));
    } else if is_ws(a[0]) {
        assert(s.drop_first() =~= a.drop_first() + seq![c] + b);
        lemma_split_ws_sep(a.drop_first(), c, b);
        assert(split_ws(s) =~= split_ws(a) + split_ws(b));
    } else {
        let k = word_len(a);
        lemma_word_len_bound(a);
        assert(k >= 1);
        // The first word of `s` is the first word of `a`.
        assert forall|j: int| 0 <= j < k implies !is_ws(s[j]) by {
            lemma_word_prefix(a, j);
        }
        if k < a.len() {
            lemma_word_stop(a);
        }
        lemma_word_len_run(s, k as int);
        assert(s.take(k as int) =~= a.take(k as int));
        assert(s.skip(k as int) =~= a.skip(k as int) + seq![c] + b);
        lemma_split_ws_sep(a.skip(k as int), c, b);
        assert(split_ws(s) =~= split_ws(a) + split_ws(b));
    }
}

proof fn lemma_word_prefix(a: Seq<char>, j: int)
    requires
        0 <= j < word_len(a),
    ensures
        !is_ws(a[j]),
    decreases j,
{
    lemma_word_len_bound(a);
    if j > 0 {
        lemma_word_prefix(a.drop_first(), j - 1);
        assert(a.drop_first()[j - 1] == a[j]);
    }
}

proof fn lemma_word_stop(a: Seq<char>)
    requires
        word_len(a) < a.len(),
    ensures
        is_ws(a[word_len(a) as int]),
    decreases a.len(),
{
    if a.len() > 0 && !is_ws(a[0]) {
        lemma_word_stop(a.drop_first());
    }
}

/// A non-empty run of non-space characters is one word.
pub proof fn lemma_split_ws_word(w: Seq<char>)
    requires
        w.len() > 0,
        forall|i: int| 0 <= i < w.len() ==> !is_ws(w[i]),
    ensures
        split_ws(w) == seq![w],
{
    lemma_word_len_run(w, w.len() as int);
    assert(w.take(w.len() as int) =~= w);
    assert(w.skip(w.len() as int) =~= Seq::<char>::empty());
    assert(split_ws(w.skip(w.len() as int)) =~= Seq::<Seq<char>>::empty());
    assert(split_ws(w) =~= seq![w]);
}

/// Words do not change when the ends are trimmed.
pub proof fn lemma_split_ws_trim(x: Seq<char>)
    ensures
        split_ws(trim(x)) == split_ws(x),
{
    lemma_split_ws_trim_start(x);
    lemma_split_ws_trim_end(trim_start(x));
}

proof fn lemma_split_ws_trim_start(x: Seq<char>)
    ensures
        split_ws(trim_start(x)) == split_ws(x),
    decreases x.len(),
{
    if x.len() > 0 && is_ws(x[0]) {
        lemma_split_ws_trim_start(x.drop_first());
    }
}

proof fn lemma_split_ws_trim_end(x: Seq<char>)
    ensures
        split_ws(trim_end(x)) == split_ws(x),
    decreases x.len(),
{
    if x.len() > 0 && is_ws(x.last()) {
        lemma_split_ws_trim_end(x.drop_last());
        lemma_split_ws_sep(x.drop_last(), x.last(), Seq::empty());
        assert(x.drop_last() + seq![x.last()] + Seq::<char>::empty() =~= x);
        assert(split_ws(Seq::<char>::empty()) =~= Seq::<Seq<char>>::empty());
        assert(split_ws(x.drop_last()) + Seq::<Seq<char>>::empty() =~= split_ws(x.drop_last()));
    }
}

/// Trimming keeps a leading non-space character first.
pub proof fn lemma_trim_keeps_first(x: Seq<char>)
    requires
        x.len() > 0,
        !is_ws(x[0]),
    ensures
        trim(x).len() > 0,
        trim(x)[0] == x[0],
{
    assert(trim_start(x) == x);
    lemma_trim_end_prefix(x);
    lemma_trim_end_nonempty(x);
}

proof fn lemma_trim_end_nonempty(x: Seq<char>)
    requires
        x.len() > 0,
        !is_ws(x[0]),
    ensures
        trim_end(x).len() > 0,
    decreases x.len(),
{
    if is_ws(x.last()) {
        assert(x.len() > 1);
        assert(x.drop_last()[0] == x[0]);
        lemma_trim_end_nonempty(x.drop_last());
    }
}

/// A line without a line feed, then a line feed, starts the lines of a text.
pub proof fn lemma_lines_cons(x: Seq<char>, y: Seq<char>)
    requires
        forall|i: int| 0 <= i < x.len() ==> x[i] != '\n',
    ensures
        lines(x + seq!['\n'] + y) == seq![strip_cr(x)] + lines(y),
{
    let s = x + seq!['\n'] + y;
    lemma_first_nl_run(s, x.len() as int);
    assert(s.take(x.len() as int) =~= x);
    assert(s.skip(x.len() as int + 1) =~= y);
}

/// The decimal digits of `n` read back as `n`.
pub proof fn lemma_dec_parse(n: nat)
    requires
        n <= usize::MAX,
    ensures
        parse_usize(dec(n)) == Some(n as usize),
        dec(n).len() > 0,
        forall|i: int| 0 <= i < dec(n).len() ==> is_digit(dec(n)[i]) && !is_ws(dec(n)[i]),
{
    lemma_dec_digits(n);
}

pub proof fn lemma_dec_digits(n: nat)
    ensures
        dec(n).len() > 0,
        forall|i: int| 0 <= i < dec(n).len() ==> is_digit(dec(n)[i]) && !is_ws(dec(n)[i]),
        digits_value(dec(n)) == n,
    decreases n,
{
    if n >= 10 {
        lemma_dec_digits(n / 10);
        let d = dec(n / 10);
        assert(dec(n) == d.push(digit_char(n)));
        assert(dec(n).drop_last() =~= d);
        assert(dec(n).last() == digit_char(n));
        assert(digit_value(digit_char(n)) == n % 10);
        assert(digits_value(dec(n)) == digits_value(d) * 10 + digit_value(dec(n).last()));
        assert(digits_value(dec(n)) == (n / 10) * 10 + n % 10);
        assert(n == (n / 10) * 10 + n % 10);
        assert forall|i: int| 0 <= i < dec(n).len() implies is_digit(dec(n)[i]) && !is_ws(
            dec(n)[i],
        ) by {
            if i < d.len() {
                assert(dec(n)[i] == d[i]);
            }
        }
    } else {
        assert(dec(n) == seq![digit_char(n)]);
        assert(dec(n).drop_last() =~= Seq::<char>::empty());
        assert(dec(n).last() == digit_char(n));
        assert(digit_value(digit_char(n)) == n % 10);
        assert(digits_value(Seq::<char>::empty()) == 0);
        assert(digits_value(dec(n)) == digits_value(dec(n).drop_last()) * 10 + digit_value(
            dec(n).last(),
        ));
    }
}

/// A white-space character at the end goes in trimming.
pub proof fn lemma_trim_drop_ws(a: Seq<char>, c: char)
    requires
        is_ws(c),
    ensures
        trim(a + seq![c]) == trim(a),
    decreases a.len(),
{
    let x = a + seq![c];
    if a.len() == 0 {
        assert(x.drop_first() =~= Seq::<char>::empty());
        assert(trim_start(x) == trim_start(x.drop_first()));
    } else if is_ws(a[0]) {
        assert(x.drop_first() =~= a.drop_first() + seq![c]);
        lemma_trim_drop_ws(a.drop_first(), c);
    } else {
        assert(trim_start(x) == x);
        assert(trim_start(a) == a);
        assert(x.drop_last() =~= a);
    }
}

/// A carriage return before the line feed makes no difference to a trimmed
/// line.
pub proof fn lemma_trim_strip_cr(x: Seq<char>)
    ensures
        trim(strip_cr(x)) == trim(x),
{
    if x.len() > 0 && x.last() == '\r' {
        assert(x.drop_last() + seq![x.last()] =~= x);
        lemma_trim_drop_ws(x.drop_last(), x.last());
    }
}

} // verus!
