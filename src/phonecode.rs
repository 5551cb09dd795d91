use crate::trie::{all_digits, texts, Node};
use vstd::prelude::*;

verus! {

/// Two parts of an answer, separated by a space.
pub open spec fn joined(w: Seq<char>, r: Seq<char>) -> Seq<char> {
    w + seq![' '] + r
}

/// Each of `ws` followed by each of `rs`, words outermost.
pub open spec fn combined(ws: Seq<Seq<char>>, rs: Seq<Seq<char>>) -> Seq<Seq<char>>
    decreases ws.len(),
{
    if ws.len() == 0 {
        Seq::empty()
    } else {
        combined(ws.drop_last(), rs) + rs.map_values(|r: Seq<char>| joined(ws.last(), r))
    }
}

/// The decimal text of a digit.
pub open spec fn digit_text(d: u8) -> Seq<char> {
    seq![('0' as u8 + d) as char]
}

/// The answers found by walking from `node` along `s`: at each step, each word of the node
/// reached followed by each encoding of what is left, and at the end of `s`, the words of
/// the last node alone.
pub open spec fn walk(root: Node, node: Node, s: Seq<u8>, use_number: bool) -> Seq<Seq<char>>
    decreases s.len(), 0int,
{
    if s.len() == 0 {
        node.words_view()
    } else {
        match node.child(s[0]) {
            Some(c) => combined(c.words_view(), encodings(root, s.drop_first(), use_number)) + walk(
                root,
                c,
                s.drop_first(),
                use_number,
            ),
            None => Seq::empty(),
        }
    }
}

/// The encodings of the digit sequence `s` by words of the trie `root`. Where no word starts
/// the encoding and `use_number` is set, the first digit may stand for itself.
pub open spec fn encodings(root: Node, s: Seq<u8>, use_number: bool) -> Seq<Seq<char>>
    decreases s.len(), 1int,
{
    let found = walk(root, root, s, true);
    if found.len() == 0 && use_number && s.len() == 1 {
        seq![digit_text(s[0])]
    } else if found.len() == 0 && use_number && s.len() > 0 {
        walk(root, root, s.drop_first(), false).map_values(|w: Seq<char>| joined(digit_text(s[0]), w))
    } else {
        found
    }
}

fn digit_string(d: u8) -> (r: String)
    requires
        d < 10,
    ensures
        r@ == digit_text(d),
{
    let t = match d {
        0 => "0",
        1 => "1",
        2 => "2",
        3 => "3",
        4 => "4",
        5 => "5",
        6 => "6",
        7 => "7",
        8 => "8",
        _ => "9",
    };
    proof {
        reveal_strlit("0");
        reveal_strlit("1");
        reveal_strlit("2");
        reveal_strlit("3");
        reveal_strlit("4");
        reveal_strlit("5");
        reveal_strlit("6");
        reveal_strlit("7");
        reveal_strlit("8");
        reveal_strlit("9");
    }
    t.to_owned()
}

fn join(w: &String, r: &String) -> (s: String)
    ensures
        s@ == joined(w@, r@),
{
    proof {
        reveal_strlit(" ");
    }
    w.clone().concat(" ").concat(r.as_str())
}

/// Appends each of `ws` followed by each of `rs` to `ans`.
fn push_combined(ans: &mut Vec<String>, ws: &Vec<String>, rs: &Vec<String>)
    ensures
        texts(final(ans)@) == texts(old(ans)@) + combined(texts(ws@), texts(rs@)),
{
    let ghost start = texts(ans@);
    let mut i: usize = 0;
    while i < ws.len()
        invariant
            i <= ws.len(),
            texts(ans@) == start + combined(texts(ws@).subrange(0, i as int), texts(rs@)),
        decreases ws.len() - i,
    {
        let ghost mid = texts(ans@);
        let mut j: usize = 0;
        while j < rs.len()
            invariant
                i < ws.len(),
                j <= rs.len(),
                texts(ans@) == mid + texts(rs@).subrange(0, j as int).map_values(|r: Seq<char>| joined(ws@[i as int]@, r)),
            decreases rs.len() - j,
        {
            let s = join(&ws[i], &rs[j]);
            let ghost prev = ans@;
            ans.push(s);
            proof {
                assert(texts(ans@) =~= texts(prev).push(s@));
                assert(texts(rs@).subrange(0, j + 1).map_values(|r: Seq<char>| joined(ws@[i as int]@, r))
                    =~= texts(rs@).subrange(0, j as int).map_values(|r: Seq<char>| joined(ws@[i as int]@, r)).push(s@));
            }
            j += 1;
        }
        proof {
            let wi = texts(ws@).subrange(0, i + 1);
            assert(wi.drop_last() =~= texts(ws@).subrange(0, i as int));
            assert(texts(rs@).subrange(0, j as int) =~= texts(rs@));
            assert(texts(ans@) =~= start + combined(wi, texts(rs@)));
        }
        i += 1;
    }
    proof {
        assert(texts(ws@).subrange(0, i as int) =~= texts(ws@));
    }
}

fn collect_answers(root: &Node, seq: &[u8], from: usize, use_number: bool) -> (ans: Vec<String>)
    requires
        from <= seq.len(),
        all_digits(seq@),
    ensures
        texts(ans@) == walk(*root, *root, seq@.subrange(from as int, seq.len() as int), use_number),
    decreases seq.len() - from, 0int,
{
    let mut ans: Vec<String> = Vec::new();
    let mut node: &Node = root;
    let mut i: usize = from;
    let ghost whole = seq@.subrange(from as int, seq.len() as int);
    assert(texts(ans@) + walk(*root, *node, whole, use_number) =~= walk(*root, *root, whole, use_number));
    while i < seq.len()
        invariant
            from <= i <= seq.len(),
            all_digits(seq@),
            whole == seq@.subrange(from as int, seq.len() as int),
            walk(*root, *root, whole, use_number) == texts(ans@) + walk(*root, *node, seq@.subrange(i as int, seq.len() as int), use_number),
        decreases seq.len() - i,
    {
        let ghost rest = seq@.subrange(i as int, seq.len() as int);
        match &node.next[seq[i] as usize] {
            Some(c) => {
                let tail = code_from(root, seq, i + 1, use_number);
                let ghost before = texts(ans@);
                push_combined(&mut ans, &c.words, &tail);
                proof {
                    assert(rest.drop_first() =~= seq@.subrange(i + 1, seq.len() as int));
                    assert(node.child(rest[0]) == Some(**c));
                    assert(c.words_view() == texts(c.words@));
                }
                node = c;
                i += 1;
            },
            None => {
                proof {
                    assert(node.child(rest[0]) is None);
                    assert(texts(ans@) + Seq::<Seq<char>>::empty() =~= texts(ans@));
                }
                return ans;
            },
        }
    }
    let ghost before = texts(ans@);
    let mut k: usize = 0;
    while k < node.words.len()
        invariant
            k <= node.words.len(),
            texts(ans@) == before + node.words_view().subrange(0, k as int),
        decreases node.words.len() - k,
    {
        let w = node.words[k].clone();
        let ghost prev = ans@;
        ans.push(w);
        proof {
            assert(texts(ans@) =~= texts(prev).push(w@));
            assert(texts(ans@) =~= before + node.words_view().subrange(0, k + 1));
        }
        k += 1;
    }
    proof {
        assert(seq@.subrange(i as int, seq.len() as int).len() == 0);
        assert(node.words_view().subrange(0, k as int) =~= node.words_view());
    }
    ans
}

fn code_from(root: &Node, seq: &[u8], from: usize, use_number: bool) -> (ans: Vec<String>)
    requires
        from <= seq.len(),
        all_digits(seq@),
    ensures
        texts(ans@) == encodings(*root, seq@.subrange(from as int, seq.len() as int), use_number),
    decreases seq.len() - from, 1int,
{
    let ghost s = seq@.subrange(from as int, seq.len() as int);
    let found = collect_answers(root, seq, from, true);
    if found.len() == 0 && use_number && seq.len() - from == 1 {
        let mut ans: Vec<String> = Vec::new();
        ans.push(digit_string(seq[from]));
        assert(texts(ans@) =~= seq![digit_text(s[0])]);
        ans
    } else if found.len() == 0 && use_number && from < seq.len() {
        let rest = collect_answers(root, seq, from + 1, false);
        let first = digit_string(seq[from]);
        let mut ans: Vec<String> = Vec::new();
        let mut k: usize = 0;
        proof {
            assert(s.drop_first() =~= seq@.subrange(from + 1, seq.len() as int));
        }
        while k < rest.len()
            invariant
                k <= rest.len(),
                first@ == digit_text(s[0]),
                texts(ans@) == texts(rest@).subrange(0, k as int).map_values(|w: Seq<char>| joined(digit_text(s[0]), w)),
            decreases rest.len() - k,
        {
            let t = join(&first, &rest[k]);
            let ghost prev = ans@;
            ans.push(t);
            proof {
                assert(texts(ans@) =~= texts(prev).push(t@));
                assert(texts(ans@) =~= texts(rest@).subrange(0, k + 1).map_values(|w: Seq<char>| joined(digit_text(s[0]), w)));
            }
            k += 1;
        }
        proof {
            assert(texts(rest@).subrange(0, k as int) =~= texts(rest@));
        }
        ans
    } else {
        found
    }
}

/// All encodings of the digit sequence `seq` by words of the trie `root`.
pub fn code_seq(root: &Node, seq: &[u8], use_number: bool) -> (ans: Vec<String>)
    requires
        all_digits(seq@),
    ensures
        texts(ans@) == encodings(*root, seq@, use_number),
{
    assert(seq@.subrange(0, seq.len() as int) =~= seq@);
    code_from(root, seq, 0, use_number)
}

} // verus!
