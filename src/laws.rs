use vstd::prelude::*;
use crate::dict::{lemma_step_len, rewrite, rewrite_layers, step_len, step_out};
use crate::text::{apply_line, load_into, parse_rule, rules_of};
use crate::trie::{is_key_prefix, lemma_no_longest_key, longest_key};

verus! {

/// The pieces of `t` that the steps of a rewrite with rules `m` consume, in
/// order.
pub open spec fn consumed_pieces(m: Map<Seq<char>, Seq<char>>, t: Seq<char>) -> Seq<Seq<char>>
    decreases t.len(),
{
    if t.len() == 0 {
        Seq::empty()
    } else {
        proof {
            lemma_step_len(m, t);
        }
        seq![t.take(step_len(m, t) as int)] + consumed_pieces(m, t.skip(step_len(m, t) as int))
    }
}

/// The number of characters that the steps of a rewrite with rules `m`
/// consume from `t`, all steps together.
pub open spec fn total_consumed(m: Map<Seq<char>, Seq<char>>, t: Seq<char>) -> nat
    decreases t.len(),
{
    if t.len() == 0 {
        0
    } else {
        proof {
            lemma_step_len(m, t);
        }
        step_len(m, t) + total_consumed(m, t.skip(step_len(m, t) as int))
    }
}

/// A rewrite pass neither drops nor repeats input: its steps consume, piece
/// by piece, exactly the characters of the input, each step at least one,
/// and as many characters in all as the input holds.
pub proof fn lemma_rewrite_consumes_input(m: Map<Seq<char>, Seq<char>>, t: Seq<char>)
    ensures
        consumed_pieces(m, t).flatten() == t,
        forall|i: int| 0 <= i < consumed_pieces(m, t).len() ==> #[trigger] consumed_pieces(m, t)[i].len() > 0,
        total_consumed(m, t) == t.len(),
    decreases t.len(),
{
    if t.len() > 0 {
        lemma_step_len(m, t);
        let n = step_len(m, t) as int;
        lemma_rewrite_consumes_input(m, t.skip(n));
        let rest = consumed_pieces(m, t.skip(n));
        assert((seq![t.take(n)] + rest).flatten() == t.take(n) + rest.flatten()) by {
            assert((seq![t.take(n)] + rest).drop_first() =~= rest);
        }
        assert(t.take(n) + t.skip(n) =~= t);
        assert forall|i: int| 0 <= i < consumed_pieces(m, t).len() implies #[trigger] consumed_pieces(m, t)[i].len() > 0 by {
            if i > 0 {
                assert(consumed_pieces(m, t)[i] == rest[i - 1]);
            }
        }
    } else {
        assert(consumed_pieces(m, t).flatten() =~= t);
    }
}

/// What a rewrite with rules `m` emits for a consumed piece `p`: the
/// replacement where `p` is a key, else `p` itself.
pub open spec fn emitted(m: Map<Seq<char>, Seq<char>>, p: Seq<char>) -> Seq<char> {
    if m.contains_key(p) {
        m[p]
    } else {
        p
    }
}

/// The output of a rewrite pass is, piece by piece, the replacement of each
/// consumed piece that is a key, and the piece itself (a single character)
/// where it is not.
pub proof fn lemma_rewrite_by_pieces(m: Map<Seq<char>, Seq<char>>, t: Seq<char>)
    ensures
        rewrite(m, t) == consumed_pieces(m, t).map_values(|p: Seq<char>| emitted(m, p)).flatten(),
    decreases t.len(),
{
    if t.len() == 0 {
        assert(consumed_pieces(m, t).map_values(|p: Seq<char>| emitted(m, p)) =~= Seq::<Seq<char>>::empty());
        assert(Seq::<Seq<char>>::empty().flatten() =~= Seq::<char>::empty());
    } else {
        lemma_step_len(m, t);
        crate::trie::lemma_longest_key_upto(m, t, t.len());
        let n = step_len(m, t) as int;
        let piece = t.take(n);
        if n == 1 && !(m.contains_key(piece)) {
            assert(piece =~= seq![t[0]]);
        }
        if longest_key(m, t) is None || longest_key(m, t) == Some(0nat) {
            assert(!is_key_prefix(m, t, 1));
        }
        assert(step_out(m, t) == emitted(m, piece));
        lemma_rewrite_by_pieces(m, t.skip(n));
        let rest = consumed_pieces(m, t.skip(n));
        let f = |p: Seq<char>| emitted(m, p);
        assert((seq![piece] + rest).map_values(f) =~= seq![f(piece)] + rest.map_values(f));
        assert((seq![f(piece)] + rest.map_values(f)).drop_first() =~= rest.map_values(f));
    }
}

/// Rules that hold no key leave every text as it is.
pub proof fn lemma_no_rules_rewrite_is_identity(m: Map<Seq<char>, Seq<char>>, t: Seq<char>)
    requires
        m.dom() == Set::<Seq<char>>::empty(),
    ensures
        rewrite(m, t) == t,
    decreases t.len(),
{
    if t.len() > 0 {
        assert forall|j: nat| !#[trigger] is_key_prefix(m, t, j) by {
            if j <= t.len() {
                assert(!m.dom().contains(t.take(j as int)));
            }
        }
        lemma_no_longest_key(m, t);
        lemma_no_rules_rewrite_is_identity(m, t.skip(1));
        assert(seq![t[0]] + t.skip(1) =~= t);
    }
}

/// A dictionary whose layers hold no rules rewrites every text to itself.
pub proof fn lemma_empty_dictionary_is_identity(ls: Seq<Map<Seq<char>, Seq<char>>>, t: Seq<char>)
    requires
        forall|i: int| 0 <= i < ls.len() ==> (#[trigger] ls[i]).dom() == Set::<Seq<char>>::empty(),
    ensures
        rewrite_layers(ls, t) == t,
    decreases ls.len(),
{
    if ls.len() > 0 {
        lemma_empty_dictionary_is_identity(ls.drop_last(), t);
        lemma_no_rules_rewrite_is_identity(ls.last(), t);
    }
}

/// Chained layers apply in order: those of the left dictionary first, then
/// those of the right one on what the left ones produced.
pub proof fn lemma_chain_applies_in_order(
    a: Seq<Map<Seq<char>, Seq<char>>>,
    b: Seq<Map<Seq<char>, Seq<char>>>,
    t: Seq<char>,
)
    ensures
        rewrite_layers(a + b, t) == rewrite_layers(b, rewrite_layers(a, t)),
    decreases b.len(),
{
    if b.len() == 0 {
        assert(a + b =~= a);
    } else {
        assert((a + b).drop_last() =~= a + b.drop_last());
        assert((a + b).last() == b.last());
        lemma_chain_applies_in_order(a, b.drop_last(), t);
    }
}

/// Chaining is associative in effect: grouping three dictionaries either way
/// gives the same pipeline.
pub proof fn lemma_chain_associative(
    a: Seq<Map<Seq<char>, Seq<char>>>,
    b: Seq<Map<Seq<char>, Seq<char>>>,
    c: Seq<Map<Seq<char>, Seq<char>>>,
    t: Seq<char>,
)
    ensures
        rewrite_layers((a + b) + c, t) == rewrite_layers(a + (b + c), t),
        rewrite_layers((a + b) + c, t) == rewrite_layers(c, rewrite_layers(b, rewrite_layers(a, t))),
{
    assert((a + b) + c =~= a + (b + c));
    lemma_chain_applies_in_order(a + b, c, t);
    lemma_chain_applies_in_order(a, b, t);
}

/// Whether line `l` gives a rule with key `k`.
pub open spec fn gives_key(l: Seq<char>, k: Seq<char>) -> bool {
    match parse_rule(l) {
        Some((lk, _)) => lk == k,
        None => false,
    }
}

/// A key stands among the loaded rules exactly when some line gives it. In
/// particular the rules are empty exactly when no line gives a rule, and a
/// loaded dictionary can rewrite exactly when no line gives an empty key.
pub proof fn lemma_loaded_keys(ls: Seq<Seq<char>>, k: Seq<char>)
    ensures
        rules_of(ls).contains_key(k) == exists|i: int| 0 <= i < ls.len() && #[trigger] gives_key(ls[i], k),
{
    lemma_loaded_keys_from(Map::empty(), ls, k);
}

proof fn lemma_loaded_keys_from(m: Map<Seq<char>, Seq<char>>, ls: Seq<Seq<char>>, k: Seq<char>)
    ensures
        load_into(m, ls).contains_key(k) == (m.contains_key(k) || exists|i: int|
            0 <= i < ls.len() && #[trigger] gives_key(ls[i], k)),
    decreases ls.len(),
{
    if ls.len() > 0 {
        let rest = ls.drop_first();
        lemma_loaded_keys_from(apply_line(m, ls[0]), rest, k);
        assert(apply_line(m, ls[0]).contains_key(k) == (m.contains_key(k) || gives_key(ls[0], k)));
        if gives_key(ls[0], k) {
            assert(gives_key(ls[0], k));
        }
        if exists|i: int| 0 <= i < rest.len() && #[trigger] gives_key(rest[i], k) {
            let i = choose|i: int| 0 <= i < rest.len() && #[trigger] gives_key(rest[i], k);
            assert(gives_key(ls[i + 1], k));
        }
        if exists|i: int| 0 <= i < ls.len() && #[trigger] gives_key(ls[i], k) {
            let i = choose|i: int| 0 <= i < ls.len() && #[trigger] gives_key(ls[i], k);
            if i > 0 {
                assert(gives_key(rest[i - 1], k));
            }
        }
    }
}

/// Loading keeps a rule whose key no later line gives again.
proof fn lemma_load_keeps(m: Map<Seq<char>, Seq<char>>, ls: Seq<Seq<char>>, k: Seq<char>)
    requires
        m.contains_key(k),
        forall|j: int| 0 <= j < ls.len() ==> !gives_key(#[trigger] ls[j], k),
    ensures
        load_into(m, ls).contains_key(k),
        load_into(m, ls)[k] == m[k],
    decreases ls.len(),
{
    if ls.len() > 0 {
        assert(!gives_key(ls[0], k));
        assert forall|j: int| 0 <= j < ls.drop_first().len() implies !gives_key(#[trigger] ls.drop_first()[j], k) by {
            assert(ls.drop_first()[j] == ls[j + 1]);
        }
        lemma_load_keeps(apply_line(m, ls[0]), ls.drop_first(), k);
    }
}

/// Among lines that give the same key, the last one decides its replacement.
pub proof fn lemma_last_rule_wins(ls: Seq<Seq<char>>, i: int, k: Seq<char>, v: Seq<char>)
    requires
        0 <= i < ls.len(),
        parse_rule(ls[i]) == Some((k, v)),
        forall|j: int| i < j < ls.len() ==> !gives_key(#[trigger] ls[j], k),
    ensures
        rules_of(ls).contains_key(k),
        rules_of(ls)[k] == v,
{
    lemma_last_rule_wins_from(Map::empty(), ls, i, k, v);
}

proof fn lemma_last_rule_wins_from(
    m: Map<Seq<char>, Seq<char>>,
    ls: Seq<Seq<char>>,
    i: int,
    k: Seq<char>,
    v: Seq<char>,
)
    requires
        0 <= i < ls.len(),
        parse_rule(ls[i]) == Some((k, v)),
        forall|j: int| i < j < ls.len() ==> !gives_key(#[trigger] ls[j], k),
    ensures
        load_into(m, ls).contains_key(k),
        load_into(m, ls)[k] == v,
    decreases ls.len(),
{
    if i == 0 {
        assert forall|j: int| 0 <= j < ls.drop_first().len() implies !gives_key(#[trigger] ls.drop_first()[j], k) by {
            assert(ls.drop_first()[j] == ls[j + 1]);
        }
        lemma_load_keeps(apply_line(m, ls[0]), ls.drop_first(), k);
    } else {
        assert forall|j: int| i - 1 < j < ls.drop_first().len() implies !gives_key(#[trigger] ls.drop_first()[j], k) by {
            assert(ls.drop_first()[j] == ls[j + 1]);
        }
        lemma_last_rule_wins_from(apply_line(m, ls[0]), ls.drop_first(), i - 1, k, v);
    }
}

/// A line that gives no rule (one without a TAB, or with an empty
/// replacement) changes nothing: loading without it gives the same rules.
pub proof fn lemma_malformed_line_ignored(ls: Seq<Seq<char>>, i: int)
    requires
        0 <= i < ls.len(),
        parse_rule(ls[i]) is None,
    ensures
        rules_of(ls) == rules_of(ls.remove(i)),
{
    lemma_malformed_line_ignored_from(Map::empty(), ls, i);
}

proof fn lemma_malformed_line_ignored_from(m: Map<Seq<char>, Seq<char>>, ls: Seq<Seq<char>>, i: int)
    requires
        0 <= i < ls.len(),
        parse_rule(ls[i]) is None,
    ensures
        load_into(m, ls) == load_into(m, ls.remove(i)),
    decreases ls.len(),
{
    if i == 0 {
        assert(ls.remove(0) =~= ls.drop_first());
    } else {
        lemma_malformed_line_ignored_from(apply_line(m, ls[0]), ls.drop_first(), i - 1);
        assert(ls.remove(i).drop_first() =~= ls.drop_first().remove(i - 1));
        assert(ls.remove(i)[0] == ls[0]);
    }
}

} // verus!
