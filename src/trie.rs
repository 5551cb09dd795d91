use std::collections::HashMap;
use vstd::prelude::*;

verus! {

broadcast use vstd::std_specs::hash::group_hash_axioms;

/// The character sequences of a sequence of strings.
pub open spec fn texts(v: Seq<String>) -> Seq<Seq<char>> {
    v.map_values(|w: String| w@)
}

/// What `str::to_lowercase` makes of a string.
pub uninterp spec fn lowercase_of(s: Seq<char>) -> Seq<char>;

/// Relies on `str::to_lowercase`: the result depends on the characters alone.
#[verifier::external_body]
fn lowercase(s: &str) -> (r: String)
    ensures
        r@ == lowercase_of(s@),
{
    s.to_lowercase()
}

/// The characters of a word that take a key: all but quotes and hyphens.
pub open spec fn keyed_chars(s: Seq<char>) -> Seq<char> {
    s.filter(|c: char| c != '"' && c != '-')
}

/// Every keyed character of `s` has a digit in `dict`.
pub open spec fn spellable(s: Seq<char>, dict: Map<u32, u8>) -> bool {
    forall|k: int| 0 <= k < keyed_chars(s).len() ==> {
        let c = #[trigger] keyed_chars(s)[k];
        dict.contains_key(c as u32) && dict[c as u32] < 10
    }
}

/// The digits of the keyed characters of `s`, looked up by character code.
pub open spec fn digits_of(s: Seq<char>, dict: Map<u32, u8>) -> Seq<u8> {
    keyed_chars(s).map_values(|c: char| dict[c as u32])
}

proof fn lemma_keyed_push(s: Seq<char>, c: char)
    ensures
        keyed_chars(s.push(c)) == if c != '"' && c != '-' {
            keyed_chars(s).push(c)
        } else {
            keyed_chars(s)
        },
{
    reveal(Seq::filter);
    assert(s.push(c).drop_last() =~= s);
}

proof fn lemma_keyed_prefix(s: Seq<char>, n: int)
    requires
        0 <= n <= s.len(),
    ensures
        keyed_chars(s) == keyed_chars(s.subrange(0, n)) + keyed_chars(s.subrange(n, s.len() as int)),
{
    assert(s =~= s.subrange(0, n) + s.subrange(n, s.len() as int));
    Seq::filter_distributes_over_add(s.subrange(0, n), s.subrange(n, s.len() as int), |c: char| c != '"' && c != '-');
}

/// A node of a trie over the decimal digits: a child for each digit, and the words stored here.
#[derive(Debug)]
pub struct Node {
    pub next: [Option<Box<Node>>; 10],
    pub words: Vec<String>,
}

/// Every value of `seq` is a decimal digit.
pub open spec fn all_digits(seq: Seq<u8>) -> bool {
    forall|k: int| 0 <= k < seq.len() ==> seq[k] < 10
}

impl Node {
    /// The words stored at this node, as character sequences.
    pub open spec fn words_view(self) -> Seq<Seq<char>> {
        self.words@.map_values(|w: String| w@)
    }

    /// The child for digit `d`, if any.
    pub open spec fn child(self, d: u8) -> Option<Node> {
        if d < 10 {
            match self.next[d as int] {
                Some(c) => Some(*c),
                None => None,
            }
        } else {
            None
        }
    }

    /// The words stored at the end of `path`; none where the path leaves the trie.
    pub open spec fn words_at(self, path: Seq<u8>) -> Seq<Seq<char>>
        decreases path.len(),
    {
        if path.len() == 0 {
            self.words_view()
        } else {
            match self.child(path[0]) {
                Some(c) => c.words_at(path.drop_first()),
                None => Seq::empty(),
            }
        }
    }

    /// The words met along `path`, from this node down, in order.
    pub open spec fn words_along(self, path: Seq<u8>) -> Seq<Seq<char>>
        decreases path.len(),
    {
        if path.len() == 0 {
            self.words_view()
        } else {
            match self.child(path[0]) {
                Some(c) => self.words_view() + c.words_along(path.drop_first()),
                None => self.words_view(),
            }
        }
    }

    /// The words met along the path `seq`, from this node down, in order.
    pub fn search_seq(&self, seq: &[u8]) -> (out: Vec<String>)
        requires
            all_digits(seq@),
        ensures
            texts(out@) == self.words_along(seq@),
    {
        let mut out: Vec<String> = Vec::new();
        let mut node: &Node = self;
        let mut i: usize = 0;
        assert(seq@.subrange(0, seq.len() as int) =~= seq@);
        loop
            invariant
                all_digits(seq@),
                i <= seq.len(),
                self.words_along(seq@) == texts(out@) + node.words_along(seq@.subrange(i as int, seq.len() as int)),
            decreases seq.len() - i,
        {
            let ghost before = out@;
            let mut k: usize = 0;
            while k < node.words.len()
                invariant
                    k <= node.words.len(),
                    texts(out@) == texts(before) + node.words_view().subrange(0, k as int),
                decreases node.words.len() - k,
            {
                let w = node.words[k].clone();
                assert(w@ == node.words_view()[k as int]);
                let ghost prev = out@;
                out.push(w);
                proof {
                    assert(texts(out@) =~= texts(prev).push(w@));
                    assert(texts(out@) =~= texts(before) + node.words_view().subrange(0, k + 1));
                }
                k += 1;
            }
            assert(node.words_view().subrange(0, k as int) =~= node.words_view());
            let ghost rest = seq@.subrange(i as int, seq.len() as int);
            if i == seq.len() {
                assert(rest.len() == 0);
                assert(self.words_along(seq@) =~= texts(out@));
                return out;
            }
            match &node.next[seq[i] as usize] {
                Some(c) => {
                    proof {
                        assert(rest.drop_first() =~= seq@.subrange(i + 1, seq.len() as int));
                        assert(node.child(rest[0]) == Some(**c));
                    }
                    node = c;
                    i += 1;
                },
                None => {
                    proof {
                        assert(node.child(rest[0]) is None);
                        assert(self.words_along(seq@) =~= texts(out@));
                    }
                    return out;
                },
            }
        }
    }

    fn empty() -> (n: Node)
        ensures
            n.words@.len() == 0,
            forall|d: u8| n.child(d) is None,
            forall|p: Seq<u8>| #[trigger] n.words_at(p) == Seq::<Seq<char>>::empty(),
    {
        let n = Node { next: [None, None, None, None, None, None, None, None, None, None], words: Vec::new() };
        assert forall|p: Seq<u8>| #[trigger] n.words_at(p) == Seq::<Seq<char>>::empty() by {
            if p.len() == 0 {
                assert(n.words_view() =~= Seq::<Seq<char>>::empty());
            }
        }
        n
    }

    fn add_seq(&mut self, seq: &[u8], from: usize, word: String)
        requires
            from <= seq.len(),
            all_digits(seq@),
        ensures
            forall|p: Seq<u8>| #[trigger] final(self).words_at(p) == if p == seq@.subrange(from as int, seq.len() as int) {
                old(self).words_at(p).push(word@)
            } else {
                old(self).words_at(p)
            },
        decreases seq.len() - from,
    {
        if from == seq.len() {
            self.words.push(word);
            proof {
                assert forall|p: Seq<u8>| #[trigger] final(self).words_at(p) == if p == seq@.subrange(from as int, seq.len() as int) {
                    old(self).words_at(p).push(word@)
                } else {
                    old(self).words_at(p)
                } by {
                    if p.len() == 0 {
                        assert(p == seq@.subrange(from as int, seq.len() as int));
                        assert(final(self).words_view() =~= old(self).words_view().push(word@));
                    } else {
                        assert(p != seq@.subrange(from as int, seq.len() as int));
                        assert(final(self).child(p[0]) == old(self).child(p[0]));
                    }
                }
            }
            return;
        }
        let d = seq[from] as usize;
        let mut child: Option<Box<Node>> = None;
        core::mem::swap(&mut self.next[d], &mut child);
        let mut c = match child {
            Some(c) => c,
            None => Box::new(Node::empty()),
        };
        let ghost c0 = *c;
        proof {
            assert forall|q: Seq<u8>| #[trigger] c0.words_at(q) == old(self).words_at(seq![seq[from as int]] + q) by {
                let p = seq![seq[from as int]] + q;
                assert(p.drop_first() =~= q);
            }
        }
        c.add_seq(seq, from + 1, word);
        let ghost c1 = *c;
        self.next[d] = Some(c);
        proof {
            assert(self.child(seq[from as int]) == Some(c1));
            let rest = seq@.subrange(from as int + 1, seq.len() as int);
            let whole = seq@.subrange(from as int, seq.len() as int);
            assert forall|p: Seq<u8>| #[trigger] final(self).words_at(p) == if p == whole {
                old(self).words_at(p).push(word@)
            } else {
                old(self).words_at(p)
            } by {
                if p.len() == 0 {
                    assert(p != whole);
                    assert(final(self).words_view() == old(self).words_view());
                } else if p[0] == seq[from as int] {
                    let q = p.drop_first();
                    assert(p =~= seq![seq[from as int]] + q);
                    assert(c0.words_at(q) == old(self).words_at(p));
                    assert(final(self).words_at(p) == c1.words_at(q));
                    assert(p == whole <==> q == rest) by {
                        if q == rest {
                            assert(p =~= whole);
                        }
                        if p == whole {
                            assert(q =~= rest);
                        }
                    }
                } else {
                    assert(p != whole);
                    assert(final(self).child(p[0]) == old(self).child(p[0]));
                }
            }
        }
    }
}

impl Default for Node {
    fn default() -> (n: Node)
        ensures
            n.words@.len() == 0,
            forall|d: u8| n.child(d) is None,
            forall|p: Seq<u8>| #[trigger] n.words_at(p) == Seq::<Seq<char>>::empty(),
    {
        Node::empty()
    }
}

/// The digits that `dict` gives the keyed characters of `word`, or `None` if one of them has
/// no digit below ten.
pub fn word_digits(word: &String, dict: &HashMap<u32, u8>) -> (r: Option<Vec<u8>>)
    ensures
        r is Some <==> spellable(word@, dict@),
        r matches Some(d) ==> d@ == digits_of(word@, dict@),
{
    let ghost chars = word@;
    let ghost mut seen: Seq<char> = Seq::empty();
    let mut out: Vec<u8> = Vec::new();
    for c in it: word.chars()
        invariant
            seen == chars.subrange(0, it.index() as int),
            it.seq() == chars,
            chars == word@,
            out@ == digits_of(seen, dict@),
            spellable(seen, dict@),
    {
        let ghost next = seen.push(c);
        proof {
            assert(chars.subrange(0, it.index() + 1) =~= next);
            lemma_keyed_push(seen, c);
        }
        if c != '"' && c != '-' {
            let key = c as u32;
            let found = dict.get(&key);
            let ok = match found {
                Some(d) => *d < 10,
                None => false,
            };
            if ok {
                let d = *found.unwrap();
                out.push(d);
            } else {
                {
                    proof {
                        assert(!(dict@.contains_key(key) && dict@[key] < 10));
                        let k = keyed_chars(seen).len() as int;
                        assert(keyed_chars(next)[k] == c);
                        lemma_keyed_prefix(chars, it.index() + 1);
                        assert(keyed_chars(next).len() == k + 1);
                        assert(chars.subrange(0, it.index() + 1) == next);
                        assert(keyed_chars(chars)[k] == c);
                        assert(0 <= k < keyed_chars(chars).len());
                        assert(!spellable(chars, dict@));
                    }
                    return None;
                }
            }
        }
        proof {
            assert(out@ =~= digits_of(next, dict@));
            seen = next;
        }
    }
    proof {
        assert(seen =~= chars);
    }
    Some(out)
}

/// Files `word` in the trie at the path of its digits.
pub fn add_word(word: &String, node: &mut Node, dict: &HashMap<u32, u8>)
    requires
        spellable(lowercase_of(word@), dict@),
    ensures
        forall|p: Seq<u8>| #[trigger] final(node).words_at(p) == if p == digits_of(lowercase_of(word@), dict@) {
            old(node).words_at(p).push(word@)
        } else {
            old(node).words_at(p)
        },
{
    let lower = lowercase(word.as_str());
    let seq = match word_digits(&lower, dict) {
        Some(d) => d,
        None => {
            return;
        },
    };
    proof {
        assert(all_digits(seq@)) by {
            assert forall|k: int| 0 <= k < seq@.len() implies seq@[k] < 10 by {
                assert(keyed_chars(lowercase_of(word@))[k] == keyed_chars(lowercase_of(word@))[k]);
            }
        }
        assert(seq@.subrange(0, seq@.len() as int) =~= seq@);
    }
    node.add_seq(seq.as_slice(), 0, word.clone());
}

/// Files `word` as `add_word` does when each of its keyed characters, lowercased, has a digit
/// below ten in `dict`; otherwise leaves the trie as it is. Tells which happened.
pub fn try_add_word(word: &String, node: &mut Node, dict: &HashMap<u32, u8>) -> (added: bool)
    ensures
        added == spellable(lowercase_of(word@), dict@),
        added ==> forall|p: Seq<u8>| #[trigger] final(node).words_at(p) == if p == digits_of(lowercase_of(word@), dict@) {
            old(node).words_at(p).push(word@)
        } else {
            old(node).words_at(p)
        },
        !added ==> *final(node) == *old(node),
{
    let lower = lowercase(word.as_str());
    if word_digits(&lower, dict).is_some() {
        add_word(word, node, dict);
        true
    } else {
        false
    }
}

} // verus!
