use vstd::prelude::*;

use vstd::multiset::Multiset;
use vstd::string::StringExecFns;
use vstd::string::StrSliceExecFns;

verus! {

/// A node of a frequency-built Huffman tree: a leaf holds a character; an inner node
/// holds the sum of its children's frequencies.
#[derive(Debug)]
pub struct Node {
    pub frequency: i32,
    pub char: Option<char>,
    pub left: Option<Box<Node>>,
    pub right: Option<Box<Node>>,
}

/// Leaves carry a character and no children; inner nodes have both children and
/// the sum of their frequencies.
pub open spec fn tree_ok(n: Node) -> bool
    decreases n,
{
    match n.char {
        Some(_) => n.left is None && n.right is None && n.frequency >= 0,
        None => match (n.left, n.right) {
            (Some(l), Some(r)) => tree_ok(*l) && tree_ok(*r) && n.frequency == l.frequency
                + r.frequency,
            _ => false,
        },
    }
}

/// The (character, frequency) pairs at the leaves.
pub open spec fn leaves(n: Node) -> Multiset<(char, i32)>
    decreases n,
{
    match n.char {
        Some(c) => Multiset::singleton((c, n.frequency)),
        None => {
            let l = match n.left {
                Some(l) => leaves(*l),
                None => Multiset::empty(),
            };
            let r = match n.right {
                Some(r) => leaves(*r),
                None => Multiset::empty(),
            };
            l.add(r)
        },
    }
}

/// The pairs of `s` as a multiset.
pub open spec fn pairs_of(s: Seq<(char, i32)>) -> Multiset<(char, i32)>
    decreases s.len(),
{
    if s.len() == 0 {
        Multiset::empty()
    } else {
        pairs_of(s.drop_last()).insert(s.last())
    }
}

/// Sum of the frequencies in `s`.
pub open spec fn total(s: Seq<(char, i32)>) -> int
    decreases s.len(),
{
    if s.len() == 0 {
        0
    } else {
        total(s.drop_last()) + s.last().1
    }
}

spec fn queue_leaves(q: Seq<Node>) -> Multiset<(char, i32)>
    decreases q.len(),
{
    if q.len() == 0 {
        Multiset::empty()
    } else {
        queue_leaves(q.drop_last()).add(leaves(q.last()))
    }
}

spec fn queue_total(q: Seq<Node>) -> int
    decreases q.len(),
{
    if q.len() == 0 {
        0
    } else {
        queue_total(q.drop_last()) + q.last().frequency
    }
}

proof fn lemma_queue_remove(q: Seq<Node>, i: int)
    requires
        0 <= i < q.len(),
    ensures
        queue_leaves(q) == queue_leaves(q.remove(i)).add(leaves(q[i])),
        queue_total(q) == queue_total(q.remove(i)) + q[i].frequency,
    decreases q.len(),
{
    if i == q.len() - 1 {
        assert(q.remove(i) =~= q.drop_last());
    } else {
        lemma_queue_remove(q.drop_last(), i);
        assert(q.remove(i).drop_last() =~= q.drop_last().remove(i));
        assert(q.remove(i).last() == q.last());
        assert(queue_leaves(q) =~= queue_leaves(q.remove(i)).add(leaves(q[i])));
    }
}

proof fn lemma_queue_nonneg(q: Seq<Node>, i: int)
    requires
        0 <= i < q.len(),
        forall|j: int| 0 <= j < q.len() ==> (#[trigger] q[j]).frequency >= 0,
    ensures
        q[i].frequency <= queue_total(q),
        queue_total(q) >= 0,
    decreases q.len(),
{
    let d = q.drop_last();
    assert(forall|j: int| 0 <= j < d.len() ==> d[j] == q[j]);
    assert(queue_total(q) == queue_total(d) + q.last().frequency);
    assert(q.last().frequency >= 0);
    if q.len() > 1 {
        lemma_queue_nonneg(d, 0);
        if i < q.len() - 1 {
            lemma_queue_nonneg(d, i);
        }
    } else {
        assert(queue_total(d) == 0);
    }
}

/// The index of the first node of least frequency.
fn least(q: &Vec<Node>) -> (r: usize)
    requires
        q@.len() >= 1,
    ensures
        r < q@.len(),
        forall|j: int| 0 <= j < q@.len() ==> q@[r as int].frequency <= (#[trigger] q@[j]).frequency,
        forall|j: int| 0 <= j < r ==> q@[r as int].frequency < (#[trigger] q@[j]).frequency,
{
    let mut best: usize = 0;
    let mut i: usize = 1;
    while i < q.len()
        invariant
            1 <= i <= q@.len(),
            best < i,
            forall|j: int| 0 <= j < i ==> q@[best as int].frequency <= (#[trigger] q@[j]).frequency,
            forall|j: int| 0 <= j < best ==> q@[best as int].frequency < (#[trigger] q@[j]).frequency,
        decreases q@.len() - i,
    {
        if q[i].frequency < q[best].frequency {
            best = i;
        }
        i = i + 1;
    }
    best
}

/// Builds a Huffman tree by merging the two least frequent nodes until one is left.
/// Among equal frequencies the node that entered the queue first is taken first,
/// and the first node taken becomes the left child.
pub fn huffman_tree(input: Vec<(char, i32)>) -> (r: Node)
    requires
        input@.len() >= 1,
        forall|i: int| 0 <= i < input@.len() ==> (#[trigger] input@[i]).1 >= 0,
        total(input@) <= i32::MAX,
    ensures
        tree_ok(r),
        leaves(r) == pairs_of(input@),
        r.frequency == total(input@),
{
    let mut heap: Vec<Node> = Vec::new();
    let mut i: usize = 0;
    while i < input.len()
        invariant
            i <= input@.len(),
            heap@.len() == i,
            queue_leaves(heap@) == pairs_of(input@.take(i as int)),
            queue_total(heap@) == total(input@.take(i as int)),
            forall|j: int| 0 <= j < heap@.len() ==> tree_ok(#[trigger] heap@[j]),
            forall|j: int| 0 <= j < heap@.len() ==> (#[trigger] heap@[j]).frequency >= 0,
            forall|j: int| 0 <= j < input@.len() ==> (#[trigger] input@[j]).1 >= 0,
        decreases input@.len() - i,
    {
        let (c, f) = input[i];
        let ghost before = heap@;
        heap.push(Node { frequency: f, char: Some(c), left: None, right: None });
        proof {
            assert(heap@.drop_last() =~= before);
            assert(input@.take(i + 1).drop_last() =~= input@.take(i as int));
            assert(queue_leaves(heap@) =~= pairs_of(input@.take(i + 1)));
        }
        i = i + 1;
    }
    assert(input@.take(input@.len() as int) =~= input@);
    while heap.len() > 1
        invariant
            heap@.len() >= 1,
            queue_leaves(heap@) == pairs_of(input@),
            queue_total(heap@) == total(input@),
            total(input@) <= i32::MAX,
            forall|j: int| 0 <= j < heap@.len() ==> tree_ok(#[trigger] heap@[j]),
            forall|j: int| 0 <= j < heap@.len() ==> (#[trigger] heap@[j]).frequency >= 0,
        decreases heap@.len(),
    {
        let a = least(&heap);
        let ghost q0 = heap@;
        let left = heap.remove(a);
        proof {
            lemma_queue_remove(q0, a as int);
        }
        let b = least(&heap);
        let ghost q1 = heap@;
        let right = heap.remove(b);
        proof {
            lemma_queue_remove(q1, b as int);
            lemma_queue_nonneg(q0, a as int);
            lemma_queue_nonneg(q1, b as int);
        }
        let ghost q2 = heap@;
        let sum = left.frequency + right.frequency;
        heap.push(Node { frequency: sum, char: None, left: Some(Box::new(left)), right: Some(Box::new(right)) });
        proof {
            assert(heap@.drop_last() =~= q2);
            let merged = heap@.last();
            assert(leaves(merged) == leaves(q0[a as int]).add(leaves(q1[b as int])));
            assert(queue_leaves(heap@) =~= queue_leaves(q0));
        }
    }
    let ghost q = heap@;
    let root = heap.remove(0);
    proof {
        assert(q.len() == 1);
        assert(q.drop_last() =~= Seq::<Node>::empty());
        assert(q.last() == q[0]);
        assert(queue_leaves(q.drop_last()) == Multiset::<(char, i32)>::empty());
        assert(queue_total(q.drop_last()) == 0);
        assert(queue_leaves(q) == Multiset::<(char, i32)>::empty().add(leaves(q[0])));
        assert(queue_leaves(q) =~= leaves(q[0]));
        assert(queue_total(q) == q[0].frequency);
    }
    root
}

/// The code of each leaf, left before right, where `prefix` is the code of `n`.
pub open spec fn codes_of(n: Node, prefix: Seq<char>) -> Seq<(char, Seq<char>)>
    decreases n,
{
    match n.char {
        Some(c) => seq![(c, prefix)],
        None => {
            let l = match n.left {
                Some(l) => codes_of(*l, prefix.push('0')),
                None => Seq::empty(),
            };
            let r = match n.right {
                Some(r) => codes_of(*r, prefix.push('1')),
                None => Seq::empty(),
            };
            l + r
        },
    }
}

pub open spec fn code_view(v: Seq<(char, String)>) -> Seq<(char, Seq<char>)> {
    Seq::new(v.len(), |i: int| (v[i].0, v[i].1@))
}

/// Appends the code of each leaf below `node` to `codes`, where `current_code` is the
/// code of `node`, left subtree before right.
pub fn get_huffman_codes(node: &Node, current_code: String, codes: &mut Vec<(char, String)>)
    ensures
        code_view(final(codes)@) == code_view(old(codes)@) + codes_of(*node, current_code@),
    decreases node,
{
    if let Some(c) = node.char {
        let ghost before = codes@;
        codes.push((c, current_code));
        assert(code_view(codes@) =~= code_view(before) + codes_of(*node, current_code@));
    } else {
        let ghost start = codes@;
        let ghost mid = codes@;
        if let Some(ref left) = node.left {
            let mut code = current_code.clone();
            proof { reveal_strlit("0"); }
            code.append("0");
            assert(code@ =~= current_code@.push('0'));
            get_huffman_codes(left, code, codes);
        }
        proof { mid = codes@; }
        if let Some(ref right) = node.right {
            let mut code = current_code.clone();
            proof { reveal_strlit("1"); }
            code.append("1");
            assert(code@ =~= current_code@.push('1'));
            get_huffman_codes(right, code, codes);
        }
        proof {
            let nd = *node;
            let l = match nd.left {
                Some(l) => codes_of(*l, current_code@.push('0')),
                None => Seq::empty(),
            };
            let r = match nd.right {
                Some(r) => codes_of(*r, current_code@.push('1')),
                None => Seq::empty(),
            };
            assert(code_view(mid) =~= code_view(start) + l);
            assert(code_view(codes@) =~= code_view(mid) + r);
            assert(code_view(codes@) =~= code_view(start) + (l + r));
        }
    }
}

/// The code of each leaf of the tree, left subtree before right.
pub fn huffman_tree_mapped(node: &Node) -> (r: Vec<(char, String)>)
    ensures
        code_view(r@) == codes_of(*node, Seq::empty()),
{
    let mut codes: Vec<(char, String)> = Vec::new();
    get_huffman_codes(node, String::new(), &mut codes);
    assert(code_view(Seq::<(char, String)>::empty()) =~= Seq::<(char, Seq<char>)>::empty());
    assert(Seq::<(char, Seq<char>)>::empty() + codes_of(*node, Seq::empty()) =~= codes_of(*node, Seq::empty()));
    codes
}

/// The node one step from `cur` on `bit`; a missing child leaves the walk where it is.
pub open spec fn step(cur: Node, bit: char) -> Node {
    if bit == '0' {
        match cur.left {
            Some(l) => *l,
            None => cur,
        }
    } else {
        match cur.right {
            Some(r) => *r,
            None => cur,
        }
    }
}

/// Walking `bits` from `cur`: each leaf reached emits its character and restarts at `root`.
pub open spec fn decode_from(root: Node, cur: Node, bits: Seq<char>) -> Seq<char>
    decreases bits.len(),
{
    if bits.len() == 0 {
        Seq::empty()
    } else {
        let next = step(cur, bits[0]);
        match next.char {
            Some(c) => seq![c] + decode_from(root, root, bits.drop_first()),
            None => decode_from(root, next, bits.drop_first()),
        }
    }
}

/// Relies on String::push: appends one character to the end of the string.
#[verifier::external_body]
fn push_char(s: &mut String, c: char)
    ensures
        final(s)@ == old(s)@.push(c),
{
    s.push(c)
}

/// Decodes a string of `'0'` and `'1'` against the tree.
pub fn decode(node: &Node, input: String) -> (r: String)
    requires
        forall|i: int| 0 <= i < input@.len() ==> #[trigger] input@[i] == '0' || input@[i] == '1',
    ensures
        r@ == decode_from(*node, *node, input@),
{
    let text = input.as_str();
    let n = text.unicode_len();
    let mut current_node = node;
    let mut decoded = String::new();
    let mut i: usize = 0;
    assert(input@.skip(0) =~= input@);
    assert(decoded@ + decode_from(*node, *node, input@) =~= decode_from(*node, *node, input@));
    while i < n
        invariant
            n == input@.len(),
            text@ == input@,
            i <= n,
            decoded@ + decode_from(*node, *current_node, input@.skip(i as int)) == decode_from(
                *node,
                *node,
                input@,
            ),
        decreases n - i,
    {
        let bit = text.get_char(i);
        let ghost rest = input@.skip(i as int);
        assert(rest.drop_first() =~= input@.skip(i + 1));
        assert(rest[0] == bit);
        if bit == '0' {
            if let Some(ref left) = current_node.left {
                current_node = left;
            }
        } else {
            if let Some(ref right) = current_node.right {
                current_node = right;
            }
        }
        if let Some(c) = current_node.char {
            let ghost before = decoded@;
            push_char(&mut decoded, c);
            assert(before + (seq![c] + decode_from(*node, *node, input@.skip(i + 1))) =~= decoded@
                + decode_from(*node, *node, input@.skip(i + 1)));
            current_node = node;
        }
        i = i + 1;
    }
    assert(decoded@ + Seq::<char>::empty() =~= decoded@);
    decoded
}

} // verus!
