//! Character-level text handling: whitespace, trimming, splitting on a
//! separator, joining, prefixes and the order of strings.

use vstd::prelude::*;
use vstd::string::*;

verus! {

/// Whether `c` has the Unicode `White_Space` property, which is what
/// `char::is_whitespace` (and therefore `str::trim`) decides.
pub open spec fn is_white_space(c: char) -> bool {
    let u = c as int;
    ||| u == 0x20
    ||| 0x09 <= u <= 0x0d
    ||| u == 0x85
    ||| u == 0xa0
    ||| u == 0x1680
    ||| 0x2000 <= u <= 0x200a
    ||| u == 0x2028
    ||| u == 0x2029
    ||| u == 0x202f
    ||| u == 0x205f
    ||| u == 0x3000
}

/// Decides `is_white_space`.
pub fn white_space(c: char) -> (b: bool)
    ensures
        b == is_white_space(c),
{
    let u = c as u32;
    u == 0x20 || (0x09 <= u && u <= 0x0d) || u == 0x85 || u == 0xa0 || u == 0x1680 || (0x2000
        <= u && u <= 0x200a) || u == 0x2028 || u == 0x2029 || u == 0x202f || u == 0x205f || u
        == 0x3000
}

/// The pieces of `s` between occurrences of `sep`, as `str::split` with a
/// `char` pattern yields them: one more piece than there are separators,
/// empty pieces included.
pub open spec fn split_on(s: Seq<char>, sep: char) -> Seq<Seq<char>>
    decreases s.len(),
{
    if s.len() == 0 {
        seq![Seq::<char>::empty()]
    } else {
        let before = split_on(s.drop_last(), sep);
        if s.last() == sep {
            before.push(Seq::<char>::empty())
        } else {
            before.update(before.len() - 1, before.last().push(s.last()))
        }
    }
}

pub proof fn lemma_split_on_nonempty(s: Seq<char>, sep: char)
    ensures
        split_on(s, sep).len() >= 1,
    decreases s.len(),
{
    if s.len() > 0 {
        lemma_split_on_nonempty(s.drop_last(), sep);
    }
}

/// The views of a sequence of strings.
pub open spec fn views(v: Seq<String>) -> Seq<Seq<char>> {
    v.map_values(|p: String| p@)
}

/// Splits `s` at every `sep`.
pub fn split_text(s: &str, sep: char) -> (parts: Vec<String>)
    ensures
        views(parts@) == split_on(s@, sep),
{
    let n = s.unicode_len();
    let mut parts: Vec<String> = Vec::new();
    let mut start: usize = 0;
    let mut i: usize = 0;
    assert(views(parts@) =~= Seq::<Seq<char>>::empty());
    assert(s@.subrange(0, 0) =~= Seq::<char>::empty());
    assert(views(parts@).push(s@.subrange(0, 0)) =~= split_on(s@.subrange(0, 0), sep));
    for c in it: s.chars()
        invariant
            n == s@.len(),
            it.seq() == s@,
            i == it.index(),
            start <= i <= n,
            views(parts@).push(s@.subrange(start as int, i as int)) == split_on(
                s@.subrange(0, i as int),
                sep,
            ),
    {
        assert(c == s@[i as int]);
        let ghost prefix = s@.subrange(0, i + 1);
        assert(prefix.drop_last() =~= s@.subrange(0, i as int));
        assert(prefix.last() == c);
        proof {
            lemma_split_on_nonempty(s@.subrange(0, i as int), sep);
        }
        if c == sep {
            let ghost before = split_on(s@.subrange(0, i as int), sep);
            let ghost old_views = views(parts@);
            parts.push(s.substring_char(start, i).to_owned());
            assert(views(parts@) =~= old_views.push(s@.subrange(start as int, i as int)));
            start = i + 1;
            assert(s@.subrange(start as int, i + 1) =~= Seq::<char>::empty());
            assert(split_on(prefix, sep) == before.push(Seq::<char>::empty()));
            assert(views(parts@).push(s@.subrange(start as int, i + 1)) =~= split_on(prefix, sep));
        } else {
            assert(s@.subrange(start as int, i + 1) =~= s@.subrange(start as int, i as int).push(c));
            let ghost before = split_on(s@.subrange(0, i as int), sep);
            assert(split_on(prefix, sep) == before.update(before.len() - 1, before.last().push(c)));
            assert(views(parts@).push(s@.subrange(start as int, i + 1)) =~= split_on(prefix, sep));
        }
        i = i + 1;
    }
    assert(s@.subrange(0, n as int) =~= s@);
    parts.push(s.substring_char(start, n).to_owned());
    assert(views(parts@) =~= split_on(s@, sep));
    parts
}


/// `s` without its leading whitespace.
pub open spec fn trim_start(s: Seq<char>) -> Seq<char>
    decreases s.len(),
{
    if s.len() > 0 && is_white_space(s[0]) {
        trim_start(s.drop_first())
    } else {
        s
    }
}

/// `s` without its trailing whitespace.
pub open spec fn trim_end(s: Seq<char>) -> Seq<char>
    decreases s.len(),
{
    if s.len() > 0 && is_white_space(s.last()) {
        trim_end(s.drop_last())
    } else {
        s
    }
}

/// `s` without leading and trailing whitespace, as `str::trim` gives it.
pub open spec fn trim(s: Seq<char>) -> Seq<char> {
    trim_end(trim_start(s))
}

/// Whether every character of `s` is whitespace.
pub open spec fn is_blank(s: Seq<char>) -> bool {
    forall|i: int| 0 <= i < s.len() ==> is_white_space(#[trigger] s[i])
}

/// A string is blank exactly when trimming leaves nothing of it.
pub proof fn lemma_trim_empty_iff_blank(s: Seq<char>)
    ensures
        trim(s).len() == 0 <==> is_blank(s),
    decreases s.len(),
{
    if s.len() > 0 && is_white_space(s[0]) {
        lemma_trim_empty_iff_blank(s.drop_first());
        assert(is_blank(s) <==> is_blank(s.drop_first())) by {
            if is_blank(s.drop_first()) {
                assert forall|i: int| 0 <= i < s.len() implies is_white_space(#[trigger] s[i]) by {
                    if i > 0 {
                        assert(s[i] == s.drop_first()[i - 1]);
                    }
                }
            }
            if is_blank(s) {
                assert forall|i: int| 0 <= i < s.drop_first().len() implies is_white_space(
                    #[trigger] s.drop_first()[i],
                ) by {
                    assert(s.drop_first()[i] == s[i + 1]);
                }
            }
        }
    } else if s.len() > 0 {
        lemma_trim_end_keeps_head(s);
    }
}

/// Trimming the end of a string whose first character is not whitespace
/// keeps that character.
proof fn lemma_trim_end_keeps_head(s: Seq<char>)
    requires
        s.len() > 0,
        !is_white_space(s[0]),
    ensures
        trim_end(s).len() > 0,
    decreases s.len(),
{
    if is_white_space(s.last()) {
        assert(s.len() > 1);
        assert(s.drop_last()[0] == s[0]);
        lemma_trim_end_keeps_head(s.drop_last());
    }
}

/// Removes leading and trailing whitespace from `s`.
pub fn trim_text(s: &str) -> (t: String)
    ensures
        t@ == trim(s@),
{
    let n = s.unicode_len();
    let mut a: usize = 0;
    assert(s@.subrange(0, n as int) =~= s@);
    while a < n && white_space(s.get_char(a))
        invariant
            n == s@.len(),
            a <= n,
            trim_start(s@) == trim_start(s@.subrange(a as int, n as int)),
        decreases n - a,
    {
        assert(s@.subrange(a as int, n as int).drop_first() =~= s@.subrange(a + 1, n as int));
        a = a + 1;
    }
    let mut b: usize = n;
    while b > a && white_space(s.get_char(b - 1))
        invariant
            n == s@.len(),
            a <= b <= n,
            trim_start(s@) == s@.subrange(a as int, n as int),
            trim(s@) == trim_end(s@.subrange(a as int, b as int)),
        decreases b - a,
    {
        assert(s@.subrange(a as int, b as int).drop_last() =~= s@.subrange(a as int, b - 1));
        b = b - 1;
    }
    s.substring_char(a, b).to_owned()
}


/// The pieces of `parts` laid end to end with `sep` between neighbours, as
/// `[&str]::join` gives them.
pub open spec fn join_with(parts: Seq<Seq<char>>, sep: char) -> Seq<char>
    decreases parts.len(),
{
    if parts.len() == 0 {
        Seq::<char>::empty()
    } else if parts.len() == 1 {
        parts[0]
    } else {
        join_with(parts.drop_last(), sep).push(sep) + parts.last()
    }
}

/// Joins `parts[from..to]` with commas between neighbours.
pub fn join_commas(parts: &Vec<String>, from: usize, to: usize) -> (joined: String)
    requires
        from <= to <= parts@.len(),
    ensures
        joined@ == join_with(views(parts@).subrange(from as int, to as int), ','),
{
    let mut joined = String::new();
    let mut i: usize = from;
    proof {
        reveal_strlit(",");
    }
    assert(views(parts@).subrange(from as int, from as int) =~= Seq::<Seq<char>>::empty());
    while i < to
        invariant
            from <= i <= to <= parts@.len(),
            ","@ == seq![','],
            joined@ == join_with(views(parts@).subrange(from as int, i as int), ','),
        decreases to - i,
    {
        let ghost done = views(parts@).subrange(from as int, i as int);
        let ghost next = views(parts@).subrange(from as int, i + 1);
        assert(next.drop_last() =~= done);
        assert(next.last() == parts@[i as int]@);
        if i > from {
            joined.append(",");
        }
        joined.append(parts[i].as_str());
        if i == from {
            assert(joined@ =~= next[0]);
        } else {
            assert(joined@ =~= join_with(done, ',').push(',') + next.last());
        }
        i = i + 1;
    }
    joined
}

/// Whether `s` begins with `prefix`.
pub open spec fn starts_with(s: Seq<char>, prefix: Seq<char>) -> bool {
    prefix.len() <= s.len() && s.subrange(0, prefix.len() as int) == prefix
}

/// Decides `starts_with`.
pub fn starts_with_text(s: &str, prefix: &str) -> (b: bool)
    ensures
        b == starts_with(s@, prefix@),
{
    let n = s.unicode_len();
    let m = prefix.unicode_len();
    if m > n {
        return false;
    }
    let mut i: usize = 0;
    while i < m
        invariant
            n == s@.len(),
            m == prefix@.len(),
            m <= n,
            i <= m,
            s@.subrange(0, i as int) == prefix@.subrange(0, i as int),
        decreases m - i,
    {
        if s.get_char(i) != prefix.get_char(i) {
            assert(s@.subrange(0, m as int)[i as int] != prefix@[i as int]);
            return false;
        }
        assert(s@.subrange(0, i + 1) =~= prefix@.subrange(0, i + 1));
        i = i + 1;
    }
    assert(prefix@.subrange(0, m as int) =~= prefix@);
    true
}

/// `s` without one trailing carriage return, if it has one.
pub open spec fn strip_cr(s: Seq<char>) -> Seq<char> {
    if s.len() > 0 && s.last() == '\r' {
        s.drop_last()
    } else {
        s
    }
}

/// The lines of `s`, as `str::lines` yields them: pieces between newlines,
/// each piece that a newline ended without a carriage return before that
/// newline, and no empty last piece after a final newline.
pub open spec fn lines_of(s: Seq<char>) -> Seq<Seq<char>> {
    let pieces = split_on(s, '\n');
    let ended = pieces.drop_last().map_values(|p: Seq<char>| strip_cr(p));
    if pieces.last().len() == 0 {
        ended
    } else {
        ended.push(pieces.last())
    }
}

/// Removes one trailing carriage return from `s`.
fn strip_cr_text(s: &str) -> (t: String)
    ensures
        t@ == strip_cr(s@),
{
    let n = s.unicode_len();
    if n > 0 && s.get_char(n - 1) == '\r' {
        s.substring_char(0, n - 1).to_owned()
    } else {
        assert(s@.subrange(0, n as int) =~= s@);
        s.substring_char(0, n).to_owned()
    }
}

/// Splits `s` into lines.
pub fn lines_text(s: &str) -> (lines: Vec<String>)
    ensures
        views(lines@) == lines_of(s@),
{
    let pieces = split_text(s, '\n');
    proof {
        lemma_split_on_nonempty(s@, '\n');
    }
    let count = pieces.len() - 1;
    let ghost ended = views(pieces@).drop_last().map_values(|p: Seq<char>| strip_cr(p));
    let mut lines: Vec<String> = Vec::new();
    let mut i: usize = 0;
    while i < count
        invariant
            count + 1 == pieces@.len(),
            views(pieces@) == split_on(s@, '\n'),
            ended == views(pieces@).drop_last().map_values(|p: Seq<char>| strip_cr(p)),
            i <= count,
            views(lines@) == ended.subrange(0, i as int),
        decreases count - i,
    {
        let line = strip_cr_text(pieces[i].as_str());
        let ghost before = views(lines@);
        lines.push(line);
        assert(views(lines@) =~= before.push(line@));
        assert(ended.subrange(0, i + 1) =~= ended.subrange(0, i as int).push(ended[i as int]));
        i = i + 1;
    }
    assert(ended.subrange(0, count as int) =~= ended);
    let last = pieces[count].as_str();
    if last.unicode_len() > 0 {
        let ghost before = views(lines@);
        lines.push(last.to_owned());
        assert(views(lines@) =~= before.push(last@));
    }
    lines
}

/// Strict lexicographic order of character sequences, comparing characters
/// by their code points. On UTF-8 text this is the byte order by which `str`
/// values compare.
pub open spec fn lex_lt(a: Seq<char>, b: Seq<char>) -> bool
    decreases a.len(),
{
    if a.len() == 0 {
        b.len() > 0
    } else if b.len() == 0 {
        false
    } else if a[0] != b[0] {
        (a[0] as int) < (b[0] as int)
    } else {
        lex_lt(a.drop_first(), b.drop_first())
    }
}

/// No sequence comes before itself.
pub proof fn lemma_lex_lt_irreflexive(a: Seq<char>)
    ensures
        !lex_lt(a, a),
    decreases a.len(),
{
    if a.len() > 0 {
        lemma_lex_lt_irreflexive(a.drop_first());
    }
}

/// Of two different sequences, exactly one comes first.
pub proof fn lemma_lex_lt_total(a: Seq<char>, b: Seq<char>)
    ensures
        a != b ==> (lex_lt(a, b) || lex_lt(b, a)),
        !(lex_lt(a, b) && lex_lt(b, a)),
    decreases a.len(),
{
    if a.len() > 0 && b.len() > 0 {
        if a[0] == b[0] {
            lemma_lex_lt_total(a.drop_first(), b.drop_first());
            if a != b {
                assert(a.drop_first() != b.drop_first()) by {
                    if a.drop_first() == b.drop_first() {
                        assert(a =~= b) by {
                            assert forall|i: int| 0 <= i < a.len() implies a[i] == b[i] by {
                                if i > 0 {
                                    assert(a[i] == a.drop_first()[i - 1]);
                                    assert(b[i] == b.drop_first()[i - 1]);
                                }
                            }
                        }
                    }
                }
            }
        } else {
            assert((a[0] as int) != (b[0] as int));
        }
    } else if a.len() == 0 && b.len() == 0 {
        assert(a =~= b);
    }
}

/// The order is transitive.
pub proof fn lemma_lex_lt_transitive(a: Seq<char>, b: Seq<char>, c: Seq<char>)
    requires
        lex_lt(a, b),
        lex_lt(b, c),
    ensures
        lex_lt(a, c),
    decreases a.len(),
{
    if a.len() > 0 && b.len() > 0 && c.len() > 0 {
        if a[0] == b[0] && b[0] == c[0] {
            lemma_lex_lt_transitive(a.drop_first(), b.drop_first(), c.drop_first());
        }
    }
}

/// Decides `lex_lt`.
pub fn lex_less(a: &str, b: &str) -> (lt: bool)
    ensures
        lt == lex_lt(a@, b@),
{
    let n = a.unicode_len();
    let m = b.unicode_len();
    let mut i: usize = 0;
    assert(a@.subrange(0, n as int) =~= a@);
    assert(b@.subrange(0, m as int) =~= b@);
    while i < n && i < m
        invariant
            n == a@.len(),
            m == b@.len(),
            i <= n,
            i <= m,
            lex_lt(a@, b@) == lex_lt(a@.subrange(i as int, n as int), b@.subrange(i as int, m as int)),
        decreases n - i,
    {
        let c = a.get_char(i);
        let d = b.get_char(i);
        let ghost ra = a@.subrange(i as int, n as int);
        let ghost rb = b@.subrange(i as int, m as int);
        assert(ra[0] == c && rb[0] == d);
        if c != d {
            return (c as u32) < (d as u32);
        }
        assert(ra.drop_first() =~= a@.subrange(i + 1, n as int));
        assert(rb.drop_first() =~= b@.subrange(i + 1, m as int));
        i = i + 1;
    }
    i < m
}


/// Among ASCII characters, whitespace is exactly space, tab, line feed,
/// vertical tab, form feed and carriage return; in particular no digit,
/// letter or punctuation mark is whitespace.
pub proof fn lemma_ascii_white_space(c: char)
    ensures
        (c as int) < 0x80 ==> (is_white_space(c) <==> (c == ' ' || c == '\t' || c == '\n' || c
            == '\x0b' || c == '\x0c' || c == '\r')),
        0x21 <= (c as int) <= 0x7e ==> !is_white_space(c),
{
}

/// `trim_start` removes exactly the leading whitespace.
proof fn lemma_trim_start_index(s: Seq<char>) -> (i: int)
    ensures
        0 <= i <= s.len(),
        trim_start(s) == s.subrange(i, s.len() as int),
        forall|k: int| 0 <= k < i ==> is_white_space(#[trigger] s[k]),
        i < s.len() ==> !is_white_space(s[i]),
    decreases s.len(),
{
    if s.len() > 0 && is_white_space(s[0]) {
        let i0 = lemma_trim_start_index(s.drop_first());
        assert forall|k: int| 0 <= k < i0 + 1 implies is_white_space(#[trigger] s[k]) by {
            if k > 0 {
                assert(s[k] == s.drop_first()[k - 1]);
            }
        }
        assert(s.drop_first().subrange(i0, s.len() - 1) =~= s.subrange(i0 + 1, s.len() as int));
        if i0 + 1 < s.len() {
            assert(s[i0 + 1] == s.drop_first()[i0]);
        }
        i0 + 1
    } else {
        assert(s.subrange(0, s.len() as int) =~= s);
        0
    }
}

/// `trim_end` removes exactly the trailing whitespace.
proof fn lemma_trim_end_index(s: Seq<char>) -> (j: int)
    ensures
        0 <= j <= s.len(),
        trim_end(s) == s.subrange(0, j),
        forall|k: int| j <= k < s.len() ==> is_white_space(#[trigger] s[k]),
        j > 0 ==> !is_white_space(s[j - 1]),
    decreases s.len(),
{
    if s.len() > 0 && is_white_space(s.last()) {
        let j0 = lemma_trim_end_index(s.drop_last());
        assert forall|k: int| j0 <= k < s.len() implies is_white_space(#[trigger] s[k]) by {
            if k < s.len() - 1 {
                assert(s[k] == s.drop_last()[k]);
            }
        }
        assert(s.drop_last().subrange(0, j0) =~= s.subrange(0, j0));
        if j0 > 0 {
            assert(s[j0 - 1] == s.drop_last()[j0 - 1]);
        }
        j0
    } else {
        assert(s.subrange(0, s.len() as int) =~= s);
        s.len() as int
    }
}

/// Trimming removes whitespace at both ends and nothing else: the result is
/// a piece of `s` that neither begins nor ends with whitespace, and all that
/// was cut off before and after it is whitespace. So a string that begins
/// and ends with a non-whitespace character is left as it is.
pub proof fn lemma_trim_removes_outer_white_space(s: Seq<char>)
    ensures
        exists|i: int, j: int|
            {
                &&& 0 <= i <= j <= s.len()
                &&& trim(s) == s.subrange(i, j)
                &&& forall|k: int| 0 <= k < i ==> is_white_space(#[trigger] s[k])
                &&& forall|k: int| j <= k < s.len() ==> is_white_space(#[trigger] s[k])
                &&& i < j ==> !is_white_space(s[i]) && !is_white_space(s[j - 1])
            },
        trim(s).len() > 0 ==> !is_white_space(trim(s)[0]) && !is_white_space(trim(s).last()),
        s.len() > 0 && !is_white_space(s[0]) && !is_white_space(s.last()) ==> trim(s) == s,
{
    let i = lemma_trim_start_index(s);
    let t = s.subrange(i, s.len() as int);
    let j0 = lemma_trim_end_index(t);
    let j = i + j0;
    assert(t.subrange(0, j0) =~= s.subrange(i, j));
    assert forall|k: int| j <= k < s.len() implies is_white_space(#[trigger] s[k]) by {
        assert(s[k] == t[k - i]);
    }
    if i < j {
        assert(s[i] == t[0]);
        assert(s[j - 1] == t[j0 - 1]);
    }
    if s.len() > 0 && !is_white_space(s[0]) && !is_white_space(s.last()) {
        assert(i == 0);
        assert(j == s.len()) by {
            if j < s.len() {
                assert(is_white_space(s[s.len() - 1]));
            }
        }
        assert(s.subrange(0, s.len() as int) =~= s);
    }
}

/// Joining after appending a piece puts the separator and that piece at the
/// end.
proof fn lemma_join_push(p: Seq<Seq<char>>, e: Seq<char>, sep: char)
    requires
        p.len() >= 1,
    ensures
        join_with(p.push(e), sep) == join_with(p, sep).push(sep) + e,
{
    assert(p.push(e).drop_last() =~= p);
}

/// Extending the last piece by a character extends the joined text by it.
proof fn lemma_join_extend_last(p: Seq<Seq<char>>, c: char, sep: char)
    requires
        p.len() >= 1,
    ensures
        join_with(p.update(p.len() - 1, p.last().push(c)), sep) == join_with(p, sep).push(c),
{
    let q = p.update(p.len() - 1, p.last().push(c));
    if p.len() >= 2 {
        assert(q.drop_last() =~= p.drop_last());
        assert(join_with(p, sep) == join_with(p.drop_last(), sep).push(sep) + p.last());
        assert(join_with(q, sep) =~= join_with(p, sep).push(c));
    }
}

/// Splitting and joining again with the same separator gives the text back,
/// and no piece holds the separator or any character the text does not hold.
pub proof fn lemma_split_then_join(s: Seq<char>, sep: char)
    ensures
        join_with(split_on(s, sep), sep) == s,
        forall|i: int, k: int|
            0 <= i < split_on(s, sep).len() && 0 <= k < split_on(s, sep)[i].len() ==> (
            #[trigger] split_on(s, sep)[i][k]) != sep && s.contains(split_on(s, sep)[i][k]),
    decreases s.len(),
{
    if s.len() == 0 {
        assert(join_with(split_on(s, sep), sep) =~= s);
    } else {
        let init = s.drop_last();
        let c = s.last();
        lemma_split_then_join(init, sep);
        lemma_split_on_nonempty(init, sep);
        let before = split_on(init, sep);
        let after = split_on(s, sep);
        assert(init.push(c) =~= s);
        if c == sep {
            lemma_join_push(before, Seq::<char>::empty(), sep);
            assert(join_with(after, sep) =~= s);
        } else {
            lemma_join_extend_last(before, c, sep);
        }
        assert forall|i: int, k: int|
            0 <= i < after.len() && 0 <= k < after[i].len() implies (#[trigger] after[i][k]) != sep
            && s.contains(after[i][k]) by {
            if c != sep && i == after.len() - 1 && k == after[i].len() - 1 {
                assert(after[i][k] == c);
                assert(s[s.len() - 1] == c);
            } else {
                assert(after[i][k] == before[i][k]);
                assert(init.contains(before[i][k]));
                let m = choose|m: int| 0 <= m < init.len() && init[m] == before[i][k];
                assert(s[m] == init[m]);
            }
        }
    }
}

/// Every line is free of newlines.
pub proof fn lemma_lines_hold_no_newline(s: Seq<char>)
    ensures
        forall|i: int, k: int|
            0 <= i < lines_of(s).len() && 0 <= k < lines_of(s)[i].len() ==> #[trigger] lines_of(
                s,
            )[i][k] != '\n',
{
    lemma_split_then_join(s, '\n');
    lemma_split_on_nonempty(s, '\n');
    let pieces = split_on(s, '\n');
    assert forall|i: int, k: int|
        0 <= i < lines_of(s).len() && 0 <= k < lines_of(s)[i].len() implies #[trigger] lines_of(
        s,
    )[i][k] != '\n' by {
        assert(lines_of(s)[i][k] == pieces[i][k]);
    }
}

/// On text without carriage returns, joining the lines with newlines gives
/// the text back, less one final newline.
pub proof fn lemma_lines_then_join(s: Seq<char>)
    requires
        !s.contains('\r'),
    ensures
        join_with(lines_of(s), '\n') == (if s.len() > 0 && s.last() == '\n' {
            s.drop_last()
        } else {
            s
        }),
{
    lemma_split_then_join(s, '\n');
    lemma_split_on_nonempty(s, '\n');
    let pieces = split_on(s, '\n');
    let n = pieces.len();
    let init = pieces.drop_last();
    let ended = init.map_values(|p: Seq<char>| strip_cr(p));
    assert(ended =~= init) by {
        assert forall|i: int| 0 <= i < init.len() implies strip_cr(init[i]) == init[i] by {
            if init[i].len() > 0 {
                let k = init[i].len() - 1;
                assert(pieces[i][k] == init[i][k]);
                assert(s.contains(pieces[i][k]));
            }
        }
    }
    if pieces.last().len() == 0 {
        if n >= 2 {
            assert(join_with(pieces, '\n') == join_with(init, '\n').push('\n') + pieces.last());
            assert(s =~= join_with(init, '\n').push('\n'));
            assert(s.drop_last() =~= join_with(init, '\n'));
        } else {
            assert(s =~= Seq::<char>::empty());
            assert(lines_of(s) =~= Seq::<Seq<char>>::empty());
        }
    } else {
        assert(lines_of(s) =~= pieces);
        let last = pieces.last();
        assert(last[last.len() - 1] != '\n');
        if n >= 2 {
            assert(s == join_with(init, '\n').push('\n') + last);
        }
        assert(s.last() == last.last());
    }
}

/// A final line ending changes no line: `s` and `s` followed by a newline
/// (or by a carriage return and a newline) have the same lines, unless `s`
/// already ends with a newline (or, for a bare newline, with a carriage
/// return, which the newline would turn into a line ending).
pub proof fn lemma_lines_final_line_ending(s: Seq<char>)
    requires
        s.len() > 0,
        s.last() != '\n',
    ensures
        lines_of(s.push('\r').push('\n')) == lines_of(s),
        s.last() != '\r' ==> lines_of(s.push('\n')) == lines_of(s),
{
    lemma_split_then_join(s, '\n');
    lemma_split_on_nonempty(s.drop_last(), '\n');
    let p = split_on(s, '\n');
    let before = split_on(s.drop_last(), '\n');
    assert(s.drop_last().push(s.last()) =~= s);
    assert(p == before.update(before.len() - 1, before.last().push(s.last())));
    assert(p.last() == before.last().push(s.last()));
    let s1 = s.push('\n');
    assert(s1.drop_last() =~= s);
    let p1 = split_on(s1, '\n');
    assert(p1 == p.push(Seq::<char>::empty()));
    assert(p1.drop_last() =~= p);
    let s2 = s.push('\r').push('\n');
    let sr = s.push('\r');
    assert(s2.drop_last() =~= sr);
    assert(sr.drop_last() =~= s);
    let pr = split_on(sr, '\n');
    assert(pr == p.update(p.len() - 1, p.last().push('\r')));
    let p2 = split_on(s2, '\n');
    assert(p2 == pr.push(Seq::<char>::empty()));
    assert(p2.drop_last() =~= pr);
    assert(strip_cr(pr.last()) =~= p.last());
    assert(lines_of(s2) =~= lines_of(s)) by {
        assert(pr.drop_last() =~= p.drop_last());
    }
    if s.last() != '\r' {
        assert(strip_cr(p.last()) == p.last());
        assert(lines_of(s1) =~= lines_of(s));
    }
}

/// The order is lexicographic: at the first position where two sequences
/// differ, the one with the smaller code point comes first, whatever their
/// lengths.
pub proof fn lemma_lex_lt_first_difference(a: Seq<char>, b: Seq<char>, k: int)
    requires
        0 <= k < a.len(),
        k < b.len(),
        a.subrange(0, k) == b.subrange(0, k),
        (a[k] as int) < (b[k] as int),
    ensures
        lex_lt(a, b),
    decreases k,
{
    if k > 0 {
        assert(a[0] == a.subrange(0, k)[0]);
        assert(b[0] == b.subrange(0, k)[0]);
        assert(a.drop_first().subrange(0, k - 1) =~= a.subrange(0, k).drop_first());
        assert(b.drop_first().subrange(0, k - 1) =~= b.subrange(0, k).drop_first());
        lemma_lex_lt_first_difference(a.drop_first(), b.drop_first(), k - 1);
    }
}

/// A proper prefix comes before the sequences it begins.
pub proof fn lemma_lex_lt_proper_prefix(a: Seq<char>, b: Seq<char>)
    requires
        a.len() < b.len(),
        b.subrange(0, a.len() as int) == a,
    ensures
        lex_lt(a, b),
    decreases a.len(),
{
    if a.len() > 0 {
        assert(b[0] == b.subrange(0, a.len() as int)[0]);
        assert(b.drop_first().subrange(0, a.len() - 1) =~= a.drop_first());
        lemma_lex_lt_proper_prefix(a.drop_first(), b.drop_first());
    }
}

} // verus!
