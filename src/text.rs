use vstd::prelude::*;
use vstd::std_specs::iter::IteratorSpec;

verus! {

broadcast use vstd::string::group_string_axioms;

/// Relies on `String::push`: the character is appended at the end.
pub assume_specification[ String::push ](s: &mut String, ch: char)
    ensures
        final(s)@ == old(s)@.push(ch),
;

/// The characters of `s`, in order.
pub fn chars_of(s: &str) -> (r: Vec<char>)
    ensures
        r@ == s@,
{
    let mut r: Vec<char> = Vec::new();
    let mut it = s.chars();
    loop
        invariant
            r@ + it.remaining() == s@,
            it.decrease() is Some,
        decreases it.decrease()->0,
    {
        match it.next() {
            Some(c) => {
                r.push(c);
                assert(r@ + it.remaining() =~= s@);
            },
            None => {
                assert(r@ =~= s@);
                return r;
            },
        }
    }
}

/// The index of the first `c` in `s`, or the length of `s` when there is none.
pub open spec fn index_of(s: Seq<char>, c: char) -> nat
    decreases s.len(),
{
    if s.len() == 0 {
        0
    } else if s[0] == c {
        0
    } else {
        1 + index_of(s.drop_first(), c)
    }
}

/// `i` is the index of the first `c` in `s` when no `c` stands before it and
/// `s` ends or holds `c` at `i`.
pub proof fn lemma_index_of(s: Seq<char>, c: char, i: nat)
    requires
        i <= s.len(),
        forall|j: int| 0 <= j < i ==> s[j] != c,
        i == s.len() || s[i as int] == c,
    ensures
        index_of(s, c) == i,
    decreases i,
{
    if i > 0 {
        lemma_index_of(s.drop_first(), c, (i - 1) as nat);
    }
}

/// A line without the carriage return that ends it, if any.
pub open spec fn strip_cr(l: Seq<char>) -> Seq<char> {
    if l.len() > 0 && l.last() == '\r' {
        l.drop_last()
    } else {
        l
    }
}

/// The lines of `t`: the text between line feeds, each without a carriage
/// return that precedes its line feed. A line feed at the very end opens no
/// further line.
pub open spec fn lines_of(t: Seq<char>) -> Seq<Seq<char>>
    decreases t.len(),
{
    if t.len() == 0 {
        Seq::empty()
    } else {
        let n = index_of(t, '\n');
        if n < t.len() {
            seq![strip_cr(t.take(n as int))] + lines_of(t.skip(n + 1 as int))
        } else {
            seq![t]
        }
    }
}

/// The rule that a line gives: its text before the first TAB is the key, and
/// the text after that TAB up to the first space is the replacement. A line
/// without a TAB, or with an empty replacement, gives none.
pub open spec fn parse_rule(l: Seq<char>) -> Option<(Seq<char>, Seq<char>)> {
    let tab = index_of(l, '\t');
    if tab < l.len() {
        let column = l.skip(tab + 1 as int);
        let value = column.take(index_of(column, ' ') as int);
        if value.len() > 0 {
            Some((l.take(tab as int), value))
        } else {
            None
        }
    } else {
        None
    }
}

/// Whether a line gives a rule whose key is empty.
pub open spec fn has_empty_key(l: Seq<char>) -> bool {
    match parse_rule(l) {
        Some((k, _)) => k.len() == 0,
        None => false,
    }
}

/// The rules `m` with the rule of line `l` stored over them.
pub open spec fn apply_line(m: Map<Seq<char>, Seq<char>>, l: Seq<char>) -> Map<
    Seq<char>,
    Seq<char>,
> {
    match parse_rule(l) {
        Some((k, v)) => m.insert(k, v),
        None => m,
    }
}

/// The rules `m` with the rules of `ls` stored over them, line by line.
pub open spec fn load_into(m: Map<Seq<char>, Seq<char>>, ls: Seq<Seq<char>>) -> Map<
    Seq<char>,
    Seq<char>,
>
    decreases ls.len(),
{
    if ls.len() == 0 {
        m
    } else {
        load_into(apply_line(m, ls[0]), ls.drop_first())
    }
}

/// The rules that the lines `ls` give, a later line overriding an earlier
/// one with the same key.
pub open spec fn rules_of(ls: Seq<Seq<char>>) -> Map<Seq<char>, Seq<char>> {
    load_into(Map::empty(), ls)
}

/// Whether `line` gives a rule whose key is empty; a dictionary loaded from
/// such a line cannot rewrite.
pub fn line_has_empty_key(line: &str) -> (r: bool)
    ensures
        r == has_empty_key(line@),
{
    chars_have_empty_key(&chars_of(line))
}

/// Whether some line of `raw` gives a rule whose key is empty; the
/// dictionary loaded from `raw` can rewrite exactly when none does.
pub fn text_has_empty_key(raw: &str) -> (r: bool)
    ensures
        r == exists|i: int| 0 <= i < lines_of(raw@).len() && #[trigger] has_empty_key(lines_of(raw@)[i]),
{
    let chars = chars_of(raw);
    let mut start: usize = 0;
    proof {
        assert(chars@.skip(0) =~= chars@);
    }
    while start < chars.len()
        invariant
            start <= chars.len(),
            chars@ == raw@,
            (exists|i: int| 0 <= i < lines_of(raw@).len() && #[trigger] has_empty_key(lines_of(raw@)[i]))
                == (exists|i: int| 0 <= i < lines_of(chars@.skip(start as int)).len()
                    && #[trigger] has_empty_key(lines_of(chars@.skip(start as int))[i])),
        decreases chars.len() - start,
    {
        let ghost t = chars@.skip(start as int);
        let (line, next) = next_line(&chars, start);
        if chars_have_empty_key(&line) {
            assert(has_empty_key(lines_of(t)[0]));
            return true;
        }
        proof {
            let rest = lines_of(chars@.skip(next as int));
            assert(lines_of(t) =~= seq![line@] + rest);
            if exists|i: int| 0 <= i < lines_of(t).len() && #[trigger] has_empty_key(lines_of(t)[i]) {
                let i = choose|i: int| 0 <= i < lines_of(t).len() && #[trigger] has_empty_key(lines_of(t)[i]);
                assert(i > 0);
                assert(has_empty_key(rest[i - 1]));
            }
            if exists|i: int| 0 <= i < rest.len() && #[trigger] has_empty_key(rest[i]) {
                let i = choose|i: int| 0 <= i < rest.len() && #[trigger] has_empty_key(rest[i]);
                assert(has_empty_key(lines_of(t)[i + 1]));
            }
        }
        start = next;
    }
    false
}

/// The first line of `s[start..]`, and where the text after it starts.
pub fn next_line(s: &Vec<char>, start: usize) -> (r: (Vec<char>, usize))
    requires
        start < s.len(),
    ensures
        start < r.1 <= s.len(),
        lines_of(s@.skip(start as int)) == seq![r.0@] + lines_of(s@.skip(r.1 as int)),
{
    let ghost t = s@.skip(start as int);
    let end = find_from(s, start, '\n');
    let mut line_end = end;
    if end < s.len() && end > start && s[end - 1] == '\r' {
        line_end = end - 1;
    }
    let line = copy_range(s, start, line_end);
    let next = if end < s.len() {
        end + 1
    } else {
        s.len()
    };
    proof {
        let n = (end - start) as int;
        if end < s.len() {
            assert(line@ =~= strip_cr(t.take(n)));
            assert(t.skip(n + 1) =~= s@.skip(next as int));
        } else {
            assert(line@ =~= t);
            assert(s@.skip(next as int) =~= Seq::<char>::empty());
        }
    }
    (line, next)
}

/// Whether the line `l` gives a rule whose key is empty.
fn chars_have_empty_key(l: &Vec<char>) -> (r: bool)
    ensures
        r == has_empty_key(l@),
{
    proof {
        assert(l@.skip(0) =~= l@);
    }
    let tab = find_from(l, 0, '\t');
    if tab != 0 || tab == l.len() {
        return false;
    }
    let end = find_from(l, 1, ' ');
    proof {
        assert(l@.skip(1).take(index_of(l@.skip(1), ' ') as int).len() == end - 1);
        assert(l@.take(0) =~= Seq::<char>::empty());
    }
    end > 1
}

/// The index of the first `c` in `s` from `start` on, or the length of `s`.
pub fn find_from(s: &Vec<char>, start: usize, c: char) -> (r: usize)
    requires
        start <= s.len(),
    ensures
        r == start + index_of(s@.skip(start as int), c),
        r <= s.len(),
{
    let mut i: usize = start;
    while i < s.len() && s[i] != c
        invariant
            start <= i <= s.len(),
            forall|j: int| start <= j < i ==> s@[j] != c,
        decreases s.len() - i,
    {
        i = i + 1;
    }
    proof {
        lemma_index_of(s@.skip(start as int), c, (i - start) as nat);
    }
    i
}

/// The characters `s[from..to]`.
pub fn copy_range(s: &Vec<char>, from: usize, to: usize) -> (r: Vec<char>)
    requires
        from <= to <= s.len(),
    ensures
        r@ == s@.subrange(from as int, to as int),
{
    let mut r: Vec<char> = Vec::new();
    let mut i: usize = from;
    while i < to
        invariant
            from <= i <= to <= s.len(),
            r@ == s@.subrange(from as int, i as int),
        decreases to - i,
    {
        r.push(s[i]);
        i = i + 1;
    }
    r
}

/// The characters `s[from..to]` as a string.
pub fn string_of_range(s: &Vec<char>, from: usize, to: usize) -> (r: String)
    requires
        from <= to <= s.len(),
    ensures
        r@ == s@.subrange(from as int, to as int),
{
    let mut r = String::new();
    let mut i: usize = from;
    while i < to
        invariant
            from <= i <= to <= s.len(),
            r@ == s@.subrange(from as int, i as int),
        decreases to - i,
    {
        r.push(s[i]);
        proof {
            assert(r@ =~= s@.subrange(from as int, i + 1));
        }
        i = i + 1;
    }
    r
}

} // verus!
