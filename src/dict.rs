use vstd::prelude::*;
use vstd::string::StringExecFns;
use crate::text::{
    apply_line, chars_of, copy_range, find_from, index_of, lines_of, load_into,
    next_line, parse_rule, rules_of, string_of_range,
};
use crate::trie::{lemma_longest_key, lemma_no_longest_key, longest_key, DictNode};

verus! {

/// The number of characters that one step of a rewrite with rules `m`
/// consumes at the start of a nonempty `t`: the length of the longest key
/// that is a prefix of `t`, or one where no nonempty key is.
pub open spec fn step_len(m: Map<Seq<char>, Seq<char>>, t: Seq<char>) -> nat {
    match longest_key(m, t) {
        Some(n) => if n > 0 {
            n
        } else {
            1
        },
        None => 1,
    }
}

/// What one step of a rewrite with rules `m` emits for the start of a
/// nonempty `t`: the replacement of the longest key that is a prefix of `t`,
/// or the first character of `t` where no nonempty key is.
pub open spec fn step_out(m: Map<Seq<char>, Seq<char>>, t: Seq<char>) -> Seq<char> {
    match longest_key(m, t) {
        Some(n) => if n > 0 {
            m[t.take(n as int)]
        } else {
            seq![t[0]]
        },
        None => seq![t[0]],
    }
}

/// One step consumes at least one character and no more than `t` holds.
pub proof fn lemma_step_len(m: Map<Seq<char>, Seq<char>>, t: Seq<char>)
    requires
        t.len() > 0,
    ensures
        1 <= step_len(m, t) <= t.len(),
{
    crate::trie::lemma_longest_key_upto(m, t, t.len());
}

/// The text `t` rewritten in one left-to-right pass with rules `m`.
pub open spec fn rewrite(m: Map<Seq<char>, Seq<char>>, t: Seq<char>) -> Seq<char>
    decreases t.len(),
{
    if t.len() == 0 {
        Seq::empty()
    } else {
        proof {
            lemma_step_len(m, t);
        }
        step_out(m, t) + rewrite(m, t.skip(step_len(m, t) as int))
    }
}

/// The text `t` rewritten by the layers `ls` in order, each pass working on
/// the output of the one before.
pub open spec fn rewrite_layers(ls: Seq<Map<Seq<char>, Seq<char>>>, t: Seq<char>) -> Seq<char>
    decreases ls.len(),
{
    if ls.len() == 0 {
        t
    } else {
        rewrite(ls.last(), rewrite_layers(ls.drop_last(), t))
    }
}

/// Whether `ls` can stand as the layers of a dictionary: there is at least
/// one, and none holds a rule with an empty key.
pub open spec fn layers_well_formed(ls: Seq<Map<Seq<char>, Seq<char>>>) -> bool {
    &&& ls.len() > 0
    &&& forall|i: int| 0 <= i < ls.len() ==> !(#[trigger] ls[i]).contains_key(Seq::empty())
}

/// A dictionary: one or more layers of rules, applied in order.
#[derive(Debug, Clone)]
pub struct Dict {
    roots: Vec<DictNode>,
}

impl View for Dict {
    type V = Seq<Map<Seq<char>, Seq<char>>>;

    /// The rules of each layer, in the order the layers apply.
    closed spec fn view(&self) -> Seq<Map<Seq<char>, Seq<char>>> {
        self.roots@.map_values(|n: DictNode| n@)
    }
}

impl Dict {
    /// Whether the dictionary can rewrite: it has a layer, and no layer
    /// holds a rule with an empty key.
    pub open spec fn wf(&self) -> bool {
        layers_well_formed(self@)
    }

    /// The trees of the layers, in the order they apply.
    pub closed spec fn layers(&self) -> Seq<DictNode> {
        self.roots@
    }

    /// The layers of the dictionary, in the order they apply.
    pub fn roots(&self) -> (r: &[DictNode])
        ensures
            r@ == self.layers(),
            r@.map_values(|n: DictNode| n@) == self@,
    {
        self.roots.as_slice()
    }

    /// The dictionary whose layers are those of `self` followed by those of
    /// `other`.
    pub fn chain(self, other: Dict) -> (r: Self)
        ensures
            r@ == self@ + other@,
            self.wf() && other.wf() ==> r.wf(),
    {
        let Dict { mut roots } = self;
        let mut rest = other.roots;
        roots.append(&mut rest);
        let r = Dict { roots };
        proof {
            assert(r@ =~= self@ + other@);
        }
        r
    }

    /// Stores the rule of `line` into `root`, if the line gives one.
    fn add_line(root: &mut DictNode, line: &Vec<char>)
        ensures
            final(root)@ == apply_line(old(root)@, line@),
            parse_rule(line@) is None ==> *final(root) == *old(root),
            *old(root) is Node ==> *final(root) is Node,
    {
        let ghost l = line@;
        proof {
            assert(l.skip(0) =~= l);
        }
        let tab = find_from(line, 0, '\t');
        if tab == line.len() {
            return;
        }
        let end = find_from(line, tab + 1, ' ');
        if end == tab + 1 {
            proof {
                assert(l.skip(tab + 1 as int).take(0) =~= Seq::<char>::empty());
            }
            return;
        }
        let key = copy_range(line, 0, tab);
        let value = string_of_range(line, tab + 1, end);
        proof {
            assert(key@ =~= l.take(tab as int));
            assert(key@.skip(0) =~= key@);
            let column = l.skip(tab + 1 as int);
            assert(value@ =~= column.take(index_of(column, ' ') as int));
        }
        root.add(&key, 0, value);
    }

    /// Loads a dictionary of one layer from the lines of `raw`.
    ///
    /// The layer is a tree in branching form, and one with no value and no
    /// children when the text gives no rule. The dictionary can rewrite
    /// unless some line gives a rule with an empty key.
    pub fn load_str(raw: &str) -> (r: Self)
        ensures
            r@ == seq![rules_of(lines_of(raw@))],
            r.layers().len() == 1,
            r.layers()[0] is Node,
            rules_of(lines_of(raw@)) == Map::<Seq<char>, Seq<char>>::empty() ==> r.layers()[0].is_empty_branch(),
            r.wf() == !rules_of(lines_of(raw@)).contains_key(Seq::empty()),
    {
        let chars = chars_of(raw);
        let mut root = DictNode::node();
        let mut start: usize = 0;
        proof {
            assert(chars@.skip(0) =~= chars@);
        }
        while start < chars.len()
            invariant
                start <= chars.len(),
                load_into(root@, lines_of(chars@.skip(start as int))) == rules_of(lines_of(raw@)),
                root is Node,
                root.is_empty_branch() || root@.dom() != Set::<Seq<char>>::empty(),
                chars@ == raw@,
            decreases chars.len() - start,
        {
            let ghost t = chars@.skip(start as int);
            let (line, next) = next_line(&chars, start);
            proof {
                assert(lines_of(t)[0] == line@);
                assert(lines_of(t).drop_first() =~= lines_of(chars@.skip(next as int)));
            }
            Dict::add_line(&mut root, &line);
            proof {
                match parse_rule(line@) {
                    Some((k, v)) => assert(root@.dom().contains(k)),
                    None => {},
                }
            }
            start = next;
        }
        let r = Dict { roots: vec![root] };
        proof {
            assert(r@ =~= seq![root@]);
            assert(r@[0] == root@);
            if root@ == Map::<Seq<char>, Seq<char>>::empty() {
                assert(root@.dom() =~= Set::<Seq<char>>::empty());
            }
        }
        r
    }

    /// Loads a dictionary of one layer from `lines`.
    ///
    /// The layer is a tree in branching form, and one with no value and no
    /// children when no line gives a rule. The dictionary can rewrite unless
    /// some line gives a rule with an empty key.
    pub fn load_lines(lines: &[&str]) -> (r: Self)
        ensures
            r@ == seq![rules_of(lines@.map_values(|l: &str| l@))],
            r.layers().len() == 1,
            r.layers()[0] is Node,
            rules_of(lines@.map_values(|l: &str| l@)) == Map::<Seq<char>, Seq<char>>::empty()
                ==> r.layers()[0].is_empty_branch(),
            r.wf() == !rules_of(lines@.map_values(|l: &str| l@)).contains_key(Seq::empty()),
    {
        let ghost ls = lines@.map_values(|l: &str| l@);
        let mut root = DictNode::node();
        let mut i: usize = 0;
        proof {
            assert(ls.skip(0) =~= ls);
        }
        while i < lines.len()
            invariant
                i <= lines@.len(),
                ls == lines@.map_values(|l: &str| l@),
                load_into(root@, ls.skip(i as int)) == rules_of(ls),
                root is Node,
                root.is_empty_branch() || root@.dom() != Set::<Seq<char>>::empty(),
            decreases lines@.len() - i,
        {
            let line = chars_of(lines[i]);
            proof {
                assert(ls.skip(i as int)[0] == line@);
                assert(ls.skip(i as int).drop_first() =~= ls.skip(i + 1));
            }
            Dict::add_line(&mut root, &line);
            proof {
                match parse_rule(line@) {
                    Some((k, v)) => assert(root@.dom().contains(k)),
                    None => {},
                }
            }
            i = i + 1;
        }
        let r = Dict { roots: vec![root] };
        proof {
            assert(r@ =~= seq![root@]);
            assert(r@[0] == root@);
            if root@ == Map::<Seq<char>, Seq<char>>::empty() {
                assert(root@.dom() =~= Set::<Seq<char>>::empty());
            }
        }
        r
    }

    /// `text` rewritten in one pass with the rules of `dict`.
    fn replace(dict: &DictNode, text: &Vec<char>) -> (r: String)
        requires
            !dict@.contains_key(Seq::empty()),
        ensures
            r@ == rewrite(dict@, text@),
    {
        let ghost m = dict@;
        let mut output = String::new();
        let mut pos: usize = 0;
        proof {
            assert(text@.skip(0) =~= text@);
            assert(output@ + rewrite(m, text@.skip(0)) =~= rewrite(m, text@));
        }
        while pos < text.len()
            invariant
                pos <= text.len(),
                !m.contains_key(Seq::empty()),
                m == dict@,
                output@ + rewrite(m, text@.skip(pos as int)) == rewrite(m, text@),
            decreases text.len() - pos,
        {
            let ghost t = text@.skip(pos as int);
            match dict.match_at(text, pos) {
                Some((n, value)) => {
                    proof {
                        lemma_longest_key(m, t, n as nat);
                        if n == 0 {
                            assert(t.take(0) =~= Seq::<char>::empty());
                        }
                        assert(text@.skip(pos + n) =~= t.skip(n as int));
                    }
                    output.append(value.as_str());
                    pos = pos + n;
                },
                None => {
                    proof {
                        lemma_no_longest_key(m, t);
                        assert(text@.skip(pos + 1) =~= t.skip(1));
                    }
                    output.push(text[pos]);
                    pos = pos + 1;
                },
            }
            proof {
                assert(output@ + rewrite(m, text@.skip(pos as int)) =~= rewrite(m, text@));
            }
        }
        proof {
            assert(output@ =~= rewrite(m, text@));
        }
        output
    }

    /// `text` rewritten by each layer in turn.
    pub fn replace_all(&self, text: &str) -> (r: String)
        requires
            self.wf(),
        ensures
            r@ == rewrite_layers(self@, text@),
    {
        proof {
            assert(self@[0] == self.roots@[0]@);
        }
        let mut buffer = Dict::replace(&self.roots[0], &chars_of(text));
        let mut i: usize = 1;
        proof {
            assert(self@.take(1).drop_last() =~= Seq::<Map<Seq<char>, Seq<char>>>::empty());
            assert(self@.take(1).last() == self@[0]);
            assert(rewrite_layers(self@.take(1).drop_last(), text@) == text@);
            assert(rewrite_layers(self@.take(1), text@) == rewrite(self@[0], text@));
        }
        while i < self.roots.len()
            invariant
                self.wf(),
                1 <= i <= self.roots.len(),
                buffer@ == rewrite_layers(self@.take(i as int), text@),
            decreases self.roots.len() - i,
        {
            proof {
                assert(self@[i as int] == self.roots@[i as int]@);
                assert(self@.take(i + 1).drop_last() =~= self@.take(i as int));
            }
            buffer = Dict::replace(&self.roots[i], &chars_of(buffer.as_str()));
            i = i + 1;
        }
        proof {
            assert(self@.take(i as int) =~= self@);
        }
        buffer
    }
}

} // verus!
