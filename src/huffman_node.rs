use vstd::prelude::*;
use crate::tables::encode_bits;

verus! {

/// One vertex of a Huffman tree: a leaf holds a character and its number of
/// occurrences, an internal node holds the sum of its children's frequencies.
#[derive(Debug, Eq)]
pub struct HuffmanNode {
    pub character: Option<char>,
    pub frequency: u32,
    pub left: Option<Box<HuffmanNode>>,
    pub right: Option<Box<HuffmanNode>>,
}

/// `m` with `bit` put in front of every code.
pub open spec fn prepend_bit(bit: char, m: Map<char, Seq<char>>) -> Map<char, Seq<char>> {
    Map::new(|c: char| m.dom().contains(c), |c: char| seq![bit] + m[c])
}

/// `m` with `prefix` put in front of every code.
pub open spec fn with_prefix(prefix: Seq<char>, m: Map<char, Seq<char>>) -> Map<char, Seq<char>> {
    Map::new(|c: char| m.dom().contains(c), |c: char| prefix + m[c])
}

/// `p` is a prefix of `q`.
pub open spec fn is_prefix(p: Seq<char>, q: Seq<char>) -> bool {
    p.len() <= q.len() && q.subrange(0, p.len() as int) == p
}

/// The code table of an optional subtree: empty when the subtree is absent.
pub open spec fn opt_codes(n: Option<Box<HuffmanNode>>) -> Map<char, Seq<char>>
    decreases n,
{
    match n {
        None => Map::empty(),
        Some(b) => (*b).codes(),
    }
}

/// The leaf frequencies of an optional subtree: empty when the subtree is absent.
pub open spec fn opt_leaf_freqs(n: Option<Box<HuffmanNode>>) -> Map<char, nat>
    decreases n,
{
    match n {
        None => Map::empty(),
        Some(b) => (*b).leaf_freqs(),
    }
}

/// The node reached from `cur` by one bit: '0' goes left, '1' goes right,
/// and a missing child or any other character leaves the walk where it is.
pub open spec fn step(cur: HuffmanNode, bit: char) -> HuffmanNode {
    if bit == '0' && cur.left is Some {
        *cur.left->Some_0
    } else if bit == '1' && cur.right is Some {
        *cur.right->Some_0
    } else {
        cur
    }
}

/// The characters read from `bits` by a walk that stands at `cur` and returns
/// to `root` after each character; bits that reach no character are dropped.
pub open spec fn decode_bits(root: HuffmanNode, cur: HuffmanNode, bits: Seq<char>) -> Seq<char>
    decreases bits.len(),
{
    if bits.len() == 0 {
        Seq::empty()
    } else {
        let next = step(cur, bits[0]);
        match next.character {
            Some(c) => seq![c] + decode_bits(root, root, bits.drop_first()),
            None => decode_bits(root, next, bits.drop_first()),
        }
    }
}

proof fn lemma_prefix_cons(b: char, x: Seq<char>, y: Seq<char>)
    requires
        is_prefix(seq![b] + x, seq![b] + y),
    ensures
        is_prefix(x, y),
{
    let bx = seq![b] + x;
    let by_ = seq![b] + y;
    assert forall|k: int| 0 <= k < x.len() implies y[k] == x[k] by {
        assert(by_.subrange(0, bx.len() as int)[k + 1] == bx[k + 1]);
    }
    assert(y.subrange(0, x.len() as int) =~= x);
}

/// Codes that start with different bits are not prefixes of one another.
proof fn lemma_prefix_split(x: Seq<char>, y: Seq<char>)
    requires
        x.len() > 0,
        y.len() > 0,
        x[0] != y[0],
    ensures
        !is_prefix(x, y),
{
    if is_prefix(x, y) {
        assert(y.subrange(0, x.len() as int)[0] == x[0]);
    }
}

/// Every code of a node without a character starts with the bit of its branch.
proof fn lemma_code_first_bit(n: HuffmanNode, c: char)
    requires
        n.character is None,
        n.codes().contains_key(c),
    ensures
        n.codes()[c].len() > 0,
        opt_codes(n.right).contains_key(c) ==> n.codes()[c] == seq!['1'] + opt_codes(n.right)[c],
        !opt_codes(n.right).contains_key(c) ==> opt_codes(n.left).contains_key(c) && n.codes()[c] == seq!['0'] + opt_codes(n.left)[c],
{
}

/// The code table of any tree is prefix free: no character's code is a
/// prefix of another character's code.
pub proof fn lemma_prefix_free(t: HuffmanNode)
    ensures
        forall|c: char, d: char|
            t.codes().contains_key(c) && t.codes().contains_key(d) && c != d ==> !is_prefix(
                #[trigger] t.codes()[c],
                #[trigger] t.codes()[d],
            ),
    decreases t,
{
    if t.character is None {
        if let Some(l) = t.left {
            lemma_prefix_free(*l);
        }
        if let Some(r) = t.right {
            lemma_prefix_free(*r);
        }
        let lc = opt_codes(t.left);
        let rc = opt_codes(t.right);
        assert forall|c: char, d: char|
            t.codes().contains_key(c) && t.codes().contains_key(d) && c != d implies !is_prefix(
            #[trigger] t.codes()[c], #[trigger] t.codes()[d]) by {
            lemma_code_first_bit(t, c);
            lemma_code_first_bit(t, d);
            if rc.contains_key(c) && rc.contains_key(d) {
                let r = *t.right->Some_0;
                assert(rc == r.codes());
                assert(!is_prefix(r.codes()[c], r.codes()[d]));
                if is_prefix(t.codes()[c], t.codes()[d]) {
                    lemma_prefix_cons('1', rc[c], rc[d]);
                }
            } else if !rc.contains_key(c) && !rc.contains_key(d) {
                let l = *t.left->Some_0;
                assert(lc == l.codes());
                assert(!is_prefix(l.codes()[c], l.codes()[d]));
                if is_prefix(t.codes()[c], t.codes()[d]) {
                    lemma_prefix_cons('0', lc[c], lc[d]);
                }
            } else {
                lemma_prefix_split(t.codes()[c], t.codes()[d]);
            }
        }
    } else {
        assert(t.codes().dom() =~= set![t.character->Some_0]);
    }
}

/// Reading one character's code from a node without a character emits that
/// character and returns the walk to the root.
pub proof fn lemma_decode_code(root: HuffmanNode, n: HuffmanNode, c: char, rest: Seq<char>)
    requires
        n.character is None,
        n.codes().contains_key(c),
    ensures
        decode_bits(root, n, n.codes()[c] + rest) == seq![c] + decode_bits(root, root, rest),
    decreases n,
{
    lemma_code_first_bit(n, c);
    let rc = opt_codes(n.right);
    let lc = opt_codes(n.left);
    let (b, child, code) = if rc.contains_key(c) {
        ('1', *n.right->Some_0, rc[c])
    } else {
        ('0', *n.left->Some_0, lc[c])
    };
    let bits = n.codes()[c] + rest;
    assert(bits =~= seq![b] + (code + rest));
    assert(bits[0] == b);
    assert(bits.drop_first() =~= code + rest);
    assert(step(n, b) == child);
    assert(child.codes().contains_key(c) && child.codes()[c] == code);
    match child.character {
        Some(d) => {
            assert(child.codes().dom().contains(d));
            assert(code =~= Seq::<char>::empty());
            assert(code + rest =~= rest);
        },
        None => {
            lemma_decode_code(root, child, c, rest);
        },
    }
}

/// Decoding the encoding of a text, followed by more bits, gives the text
/// followed by the decoding of those bits, when every character of the text
/// has a code and the root holds no character.
pub proof fn lemma_decode_encoded(root: HuffmanNode, text: Seq<char>, rest: Seq<char>)
    requires
        root.character is None,
        forall|i: int| 0 <= i < text.len() ==> root.codes().contains_key(#[trigger] text[i]),
    ensures
        decode_bits(root, root, encode_bits(text, root.codes()) + rest) == text + decode_bits(root, root, rest),
    decreases text.len(),
{
    if text.len() == 0 {
        assert(encode_bits(text, root.codes()) + rest =~= rest);
        assert(text + decode_bits(root, root, rest) =~= decode_bits(root, root, rest));
    } else {
        let init = text.drop_last();
        let c = text.last();
        assert(root.codes().contains_key(text[text.len() - 1]));
        let code = root.codes()[c];
        assert forall|i: int| 0 <= i < init.len() implies root.codes().contains_key(#[trigger] init[i]) by {
            assert(init[i] == text[i]);
        }
        lemma_decode_encoded(root, init, code + rest);
        lemma_decode_code(root, root, c, rest);
        assert(encode_bits(text, root.codes()) + rest =~= encode_bits(init, root.codes()) + (code + rest));
        assert(init + (seq![c] + decode_bits(root, root, rest)) =~= text + decode_bits(root, root, rest));
    }
}

/// In a well-formed tree the characters with a code are those of the leaves.
pub proof fn lemma_codes_dom(t: HuffmanNode)
    requires
        t.well_formed(),
    ensures
        t.codes().dom() == t.leaf_freqs().dom(),
    decreases t,
{
    if t.character is None {
        let l = *t.left->Some_0;
        let r = *t.right->Some_0;
        lemma_codes_dom(l);
        lemma_codes_dom(r);
        assert(t.codes().dom() =~= t.leaf_freqs().dom());
    } else {
        assert(t.codes().dom() =~= t.leaf_freqs().dom());
    }
}

/// A well-formed tree whose root holds no character has two characters.
pub proof fn lemma_internal_two_leaves(t: HuffmanNode)
    requires
        t.well_formed(),
        t.character is None,
    ensures
        exists|c: char, d: char| c != d && t.leaf_freqs().contains_key(c) && t.leaf_freqs().contains_key(d),
{
    let l = *t.left->Some_0;
    let r = *t.right->Some_0;
    crate::forest::lemma_leaves_nonempty(l);
    crate::forest::lemma_leaves_nonempty(r);
    let c = choose|c: char| l.leaf_freqs().contains_key(c);
    let d = choose|d: char| r.leaf_freqs().contains_key(d);
    assert(t.leaf_freqs().contains_key(c) && t.leaf_freqs().contains_key(d));
}

/// Relies on std's formatting: `{:?}` of an optional character and `{}` of an
/// integer.
#[verifier::external_body]
fn render_node(character: Option<char>, frequency: u32, left: Option<char>, right: Option<char>) -> String {
    format!("(val: {:?}, f: {}, l: {:?}, r: {:?})", character, frequency, left, right)
}

/// The character held by an optional subtree's root.
fn root_character(n: &Option<Box<HuffmanNode>>) -> (r: Option<char>)
    ensures
        r == match n {
            Some(b) => b.character,
            None => None,
        },
{
    match n {
        Some(node) => node.character,
        None => None,
    }
}

impl Clone for HuffmanNode {
    fn clone(&self) -> (r: Self)
        ensures
            r == *self,
    {
        self.deep_copy()
    }
}

/// Nodes are equal when their frequencies are.
impl PartialEq for HuffmanNode {
    fn eq(&self, other: &HuffmanNode) -> (r: bool) {
        self.frequency == other.frequency
    }
}

impl vstd::std_specs::cmp::PartialEqSpecImpl for HuffmanNode {
    open spec fn obeys_eq_spec() -> bool {
        true
    }

    open spec fn eq_spec(&self, other: &HuffmanNode) -> bool {
        self.frequency == other.frequency
    }
}

/// Nodes are ordered by frequency alone, in reverse: the node of lower
/// frequency is the greater, so that it comes first out of a max-heap.
impl PartialOrd for HuffmanNode {
    fn partial_cmp(&self, other: &HuffmanNode) -> (r: Option<core::cmp::Ordering>) {
        if self.frequency < other.frequency {
            Some(core::cmp::Ordering::Greater)
        } else if self.frequency > other.frequency {
            Some(core::cmp::Ordering::Less)
        } else {
            Some(core::cmp::Ordering::Equal)
        }
    }
}

impl vstd::std_specs::cmp::PartialOrdSpecImpl for HuffmanNode {
    open spec fn obeys_partial_cmp_spec() -> bool {
        true
    }

    open spec fn partial_cmp_spec(&self, other: &HuffmanNode) -> Option<core::cmp::Ordering> {
        if self.frequency < other.frequency {
            Some(core::cmp::Ordering::Greater)
        } else if self.frequency > other.frequency {
            Some(core::cmp::Ordering::Less)
        } else {
            Some(core::cmp::Ordering::Equal)
        }
    }
}

impl HuffmanNode {
    /// A copy of the whole tree below this node.
    pub fn deep_copy(&self) -> (r: Self)
        ensures
            r == *self,
        decreases self,
    {
        let left = match &self.left {
            Some(b) => Some(Box::new((**b).deep_copy())),
            None => None,
        };
        let right = match &self.right {
            Some(b) => Some(Box::new((**b).deep_copy())),
            None => None,
        };
        HuffmanNode { character: self.character, frequency: self.frequency, left, right }
    }

    /// A one-line description: the node's character and frequency and the
    /// characters of its children's roots.
    pub fn to_string(&self) -> String {
        let left_character = root_character(&self.left);
        let right_character = root_character(&self.right);
        render_node(self.character, self.frequency, left_character, right_character)
    }

    /// The code of each character of the tree: the path from this node to the
    /// first node that holds it, '0' for left and '1' for right. The walk stops
    /// at a node with a character; where a character stands twice, the
    /// occurrence visited last (further right) wins.
    pub open spec fn codes(self) -> Map<char, Seq<char>>
        decreases self,
    {
        match self.character {
            Some(c) => map![c => Seq::<char>::empty()],
            None => prepend_bit('0', opt_codes(self.left)).union_prefer_right(
                prepend_bit('1', opt_codes(self.right)),
            ),
        }
    }

    /// Each leaf's character with its frequency.
    pub open spec fn leaf_freqs(self) -> Map<char, nat>
        decreases self,
    {
        match self.character {
            Some(c) => map![c => self.frequency as nat],
            None => opt_leaf_freqs(self.left).union_prefer_right(opt_leaf_freqs(self.right)),
        }
    }

    /// A full Huffman tree: a node holds a character exactly when it has no
    /// children, an internal node has two children whose characters are
    /// disjoint and whose frequencies add up to its own.
    pub open spec fn well_formed(self) -> bool
        decreases self,
    {
        match self.character {
            Some(c) => self.left is None && self.right is None,
            None => match (self.left, self.right) {
                (Some(l), Some(r)) => {
                    &&& (*l).well_formed()
                    &&& (*r).well_formed()
                    &&& self.frequency == l.frequency + r.frequency
                    &&& (*l).leaf_freqs().dom().disjoint((*r).leaf_freqs().dom())
                },
                _ => false,
            },
        }
    }

    /// Creates a node from its parts.
    pub fn new(
        character: Option<char>,
        frequency: u32,
        left: Option<Box<HuffmanNode>>,
        right: Option<Box<HuffmanNode>>,
    ) -> (r: Self)
        ensures
            r.character == character,
            r.frequency == frequency,
            r.left == left,
            r.right == right,
    {
        HuffmanNode { character, frequency, left, right }
    }

    /// The character of a leaf, `None` on an internal node.
    pub fn character(&self) -> (r: Option<char>)
        ensures
            r == self.character,
    {
        self.character
    }

    /// The frequency of the node.
    pub fn frequency(&self) -> (r: u32)
        ensures
            r == self.frequency,
    {
        self.frequency
    }

    /// The left subtree, if any.
    pub fn left(&self) -> (r: Option<&HuffmanNode>)
        ensures
            r matches Some(n) ==> self.left matches Some(b) && *n == *b,
            r is None <==> self.left is None,
    {
        match &self.left {
            Some(b) => Some(&**b),
            None => None,
        }
    }

    /// The right subtree, if any.
    pub fn right(&self) -> (r: Option<&HuffmanNode>)
        ensures
            r matches Some(n) ==> self.right matches Some(b) && *n == *b,
            r is None <==> self.right is None,
    {
        match &self.right {
            Some(b) => Some(&**b),
            None => None,
        }
    }
}

} // verus!
