use vstd::prelude::*;
use crate::forest::{
    first_min, forest_freqs, forest_ok, forest_total, greedy, leaves_of, merge_step, lemma_forest_dom, lemma_forest_remove,
    lemma_forest_total_nonneg, lemma_leaves_nonempty, min_index,
};
use crate::huffman_node::{
    decode_bits, is_prefix, lemma_codes_dom, lemma_decode_encoded, lemma_internal_two_leaves,
    lemma_prefix_free, opt_codes, prepend_bit, step, with_prefix, HuffmanNode,
};
use crate::tables::{
    count_entries, count_map, count_total, encode_bits, lemma_count_entries_push, lemma_count_lookup, frequencies, keys_unique, lemma_count_dom,
    lemma_count_le, lemma_count_missing, lemma_frequencies_push, CodeTable, FrequencyTable,
};
use vstd::string::StringExecFns;

verus! {

/// Relies on String::push: appends one character at the end.
#[verifier::external_body]
fn push_char(s: &mut String, c: char)
    ensures
        final(s)@ == old(s)@.push(c),
{
    s.push(c)
}

/// A Huffman coder: the tree built from a text and the code table derived from it.
#[derive(Debug)]
pub struct Huffman {
    huffman_tree: Option<Box<HuffmanNode>>,
    code_table: Option<CodeTable>,
}

impl Clone for Huffman {
    fn clone(&self) -> (r: Self)
        ensures
            r.tree() == self.tree(),
            r.table() is Some == self.table() is Some,
            r.table() matches Some(t) ==> t@ == self.table()->Some_0@ && t.wf() == self.table()->Some_0.wf(),
    {
        let huffman_tree = match &self.huffman_tree {
            Some(t) => Some(Box::new((**t).deep_copy())),
            None => None,
        };
        let code_table = match &self.code_table {
            Some(t) => Some(t.clone()),
            None => None,
        };
        Huffman { huffman_tree, code_table }
    }
}

/// The message of the error that `encode` and `decode` return before `build`.
pub open spec fn not_available_message() -> Seq<char> {
    "Code table is not available"@
}

impl Huffman {
    /// The tree, if one was built or set.
    pub closed spec fn tree(self) -> Option<Box<HuffmanNode>> {
        self.huffman_tree
    }

    /// The code table, if one was built or set.
    pub closed spec fn table(self) -> Option<CodeTable> {
        self.code_table
    }

    /// A code table that is present has distinct characters.
    pub open spec fn wf(self) -> bool {
        self.table() matches Some(t) ==> t.wf()
    }

    /// What `build` leaves for `text`: nothing for an empty text; otherwise the
    /// tree of greedy merges over one leaf per distinct character, in order of
    /// first occurrence, which is well formed and whose leaves hold the
    /// characters of `text` with their numbers of occurrences; and the table of
    /// the codes of that tree.
    pub open spec fn built_from(self, text: Seq<char>) -> bool {
        if text.len() == 0 {
            self.tree() is None && self.table() is None
        } else {
            &&& self.tree() == greedy(leaves_of(count_entries(text)))
            &&& self.tree() matches Some(t)
            &&& t.well_formed()
            &&& t.leaf_freqs() == frequencies(text)
            &&& self.table() matches Some(ct)
            &&& ct@ == t.codes()
        }
    }

    /// Creates a coder with neither tree nor code table.
    pub fn new() -> (r: Self)
        ensures
            r.wf(),
            r.tree() is None,
            r.table() is None,
    {
        Huffman { huffman_tree: None, code_table: None }
    }

    /// The tree.
    pub fn get_huffman_tree(&self) -> (r: &Option<Box<HuffmanNode>>)
        ensures
            *r == self.tree(),
    {
        &self.huffman_tree
    }

    /// Replaces the tree, leaving the code table as it is.
    pub fn set_huffman_tree(&mut self, tree: Option<Box<HuffmanNode>>)
        ensures
            final(self).tree() == tree,
            final(self).table() == old(self).table(),
    {
        self.huffman_tree = tree;
    }

    /// The code table.
    pub fn get_code_table(&self) -> (r: &Option<CodeTable>)
        ensures
            *r == self.table(),
    {
        &self.code_table
    }

    /// Replaces the code table, leaving the tree as it is.
    pub fn set_code_table(&mut self, table: Option<CodeTable>)
        requires
            table matches Some(t) ==> t.wf(),
        ensures
            final(self).wf(),
            final(self).table() == table,
            final(self).tree() == old(self).tree(),
    {
        self.code_table = table;
    }

    /// Builds the tree and the code table of `text`, replacing those held
    /// before; an empty text leaves neither.
    pub fn build(&mut self, text: &str)
        requires
            text@.len() <= u32::MAX,
        ensures
            final(self).wf(),
            final(self).built_from(text@),
    {
        let frequency_table = Huffman::build_frequency_table(text);
        let huffman_tree = Huffman::build_huffman_tree(&frequency_table);
        proof {
            lemma_count_dom(frequency_table.entries@);
            if text@.len() > 0 {
                assert(frequency_table@.dom().contains(text@[0]));
                if frequency_table@.len() == 0 {
                    frequency_table@.dom().lemma_len0_is_empty();
                }
            } else {
                assert(frequency_table@.dom() =~= Set::<char>::empty());
            }
        }
        match huffman_tree {
            Some(root) => {
                let mut code_table = CodeTable::new();
                Huffman::build_code_table(&root, String::new(), &mut code_table);
                proof {
                    assert(code_table@ =~= root.codes()) by {
                        assert forall|c: char| #[trigger] root.codes().contains_key(c) implies
                            Seq::<char>::empty() + root.codes()[c] =~= root.codes()[c] by {}
                    }
                }
                self.huffman_tree = Some(root);
                self.code_table = Some(code_table);
            },
            None => {
                self.huffman_tree = None;
                self.code_table = None;
            },
        }
    }

    /// Decodes `encoded_text` with the tree; an error when there is no tree.
    pub fn decode(&self, encoded_text: &str) -> (r: Result<String, String>)
        ensures
            match self.tree() {
                Some(t) => r matches Ok(s) && s@ == decode_bits(*t, *t, encoded_text@),
                None => r matches Err(e) && e@ == not_available_message(),
            },
    {
        if let Some(huffman_tree) = &self.huffman_tree {
            Ok(Huffman::decode_text(encoded_text, huffman_tree))
        } else {
            Err(String::from_str("Code table is not available"))
        }
    }

    /// Encodes `text` with the code table; an error when there is no table.
    pub fn encode(&self, text: &str) -> (r: Result<String, String>)
        requires
            self.wf(),
        ensures
            match self.table() {
                Some(t) => r matches Ok(s) && s@ == encode_bits(text@, t@),
                None => r matches Err(e) && e@ == not_available_message(),
            },
    {
        if let Some(code_table) = &self.code_table {
            Ok(Huffman::encode_text(text, code_table))
        } else {
            Err(String::from_str("Code table is not available"))
        }
    }
    /// Builds a Huffman tree by merging the two least frequent trees until
    /// one is left; `None` for an empty table. The queue starts with one leaf
    /// per entry, in the table's order; among trees of equal frequency the one
    /// nearer the front is taken first, and each merged tree goes to the back.
    pub fn build_huffman_tree(frequency_table: &FrequencyTable) -> (r: Option<Box<HuffmanNode>>)
        requires
            frequency_table.wf(),
            frequency_table.total() <= u32::MAX,
        ensures
            r is None <==> frequency_table@.len() == 0,
            r matches Some(t) ==> {
                &&& t.well_formed()
                &&& t.leaf_freqs() == frequency_table@
                &&& t.frequency == frequency_table.total()
            },
            r == greedy(leaves_of(frequency_table.entries@)),
    {
        let ghost e = frequency_table.entries@;
        let mut priority_queue: Vec<Box<HuffmanNode>> = Vec::new();
        let n: usize = frequency_table.entries.len();
        for i in 0..n
            invariant
                n == e.len(),
                e == frequency_table.entries@,
                keys_unique(e),
                priority_queue@.len() == i,
                forall|k: int| 0 <= k < i ==> priority_queue@[k] == leaves_of(e)[k],
                forall|k: int| 0 <= k < i ==> (#[trigger] priority_queue@[k]).leaf_freqs() == map![e[k].0 => e[k].1 as nat],
                forest_ok(priority_queue@),
                forest_freqs(priority_queue@) == count_map(e.take(i as int)),
                forest_total(priority_queue@) == count_total(e.take(i as int)),
        {
            let (character, frequency) = frequency_table.entries[i];
            let leaf = HuffmanNode::new(Some(character), frequency, None, None);
            let ghost q0 = priority_queue@;
            priority_queue.push(Box::new(leaf));
            proof {
                let q = priority_queue@;
                assert(q.drop_last() =~= q0);
                assert(e.take(i + 1).drop_last() =~= e.take(i as int));
                assert(q[i as int].leaf_freqs() =~= map![e[i as int].0 => e[i as int].1 as nat]);
                assert(forest_freqs(q) =~= count_map(e.take(i + 1)));
                assert forall|a: int, b: int|
                    0 <= a < q.len() && 0 <= b < q.len() && a != b implies (#[trigger] q[a]).leaf_freqs().dom().disjoint(
                    (#[trigger] q[b]).leaf_freqs().dom()) by {
                    if a != i && b != i {
                        assert(q[a] == q0[a] && q[b] == q0[b]);
                    }
                }
            }
        }
        proof {
            assert(e.take(n as int) =~= e);
            assert(priority_queue@ =~= leaves_of(e));
        }
        while priority_queue.len() > 1
            invariant
                forest_ok(priority_queue@),
                forest_freqs(priority_queue@) == frequency_table@,
                forest_total(priority_queue@) == frequency_table.total(),
                frequency_table.total() <= u32::MAX,
                greedy(priority_queue@) == greedy(leaves_of(frequency_table.entries@)),
            decreases priority_queue@.len(),
        {
            let ghost q = priority_queue@;
            let ia = min_index(&priority_queue);
            let left_child = priority_queue.remove(ia);
            proof {
                lemma_forest_remove(q, ia as int);
            }
            let ghost q1 = priority_queue@;
            let ib = min_index(&priority_queue);
            let right_child = priority_queue.remove(ib);
            proof {
                lemma_forest_remove(q1, ib as int);
                lemma_forest_total_nonneg(priority_queue@);
                assert forall|c: char| (*right_child).leaf_freqs().contains_key(c) implies forest_freqs(q1).contains_key(c) by {
                    lemma_forest_dom(q1, c);
                    assert(q1[ib as int] == right_child);
                }
            }
            let parent = HuffmanNode::new(
                None,
                left_child.frequency() + right_child.frequency(),
                Some(left_child),
                Some(right_child),
            );
            let ghost q2 = priority_queue@;
            priority_queue.push(Box::new(parent));
            proof {
                let q3 = priority_queue@;
                assert(q3.drop_last() =~= q2);
                assert(parent.well_formed());
                assert(parent.leaf_freqs() == (*left_child).leaf_freqs().union_prefer_right((*right_child).leaf_freqs()));
                assert(forest_freqs(q3) =~= frequency_table@);
                assert forall|k: int| 0 <= k < q2.len() implies (#[trigger] q2[k]).leaf_freqs().dom().disjoint(
                    parent.leaf_freqs().dom()) by {
                    assert forall|c: char| q2[k].leaf_freqs().contains_key(c) implies !parent.leaf_freqs().contains_key(c) by {
                        lemma_forest_dom(q2, c);
                    }
                }
                assert forall|a: int, b: int|
                    0 <= a < q3.len() && 0 <= b < q3.len() && a != b implies (#[trigger] q3[a]).leaf_freqs().dom().disjoint(
                    (#[trigger] q3[b]).leaf_freqs().dom()) by {
                    if a != q2.len() && b != q2.len() {
                        assert(q3[a] == q2[a] && q3[b] == q2[b]);
                    } else if a == q2.len() {
                        assert(q3[b] == q2[b]);
                    } else {
                        assert(q3[a] == q2[a]);
                    }
                }
                assert forall|a: int| 0 <= a < q3.len() implies (#[trigger] q3[a]).well_formed() by {
                    if a < q2.len() {
                        assert(q3[a] == q2[a]);
                    }
                }
                assert(q3 =~= merge_step(q));
                assert(greedy(q) == greedy(merge_step(q)));
            }
        }
        proof {
            let q = priority_queue@;
            lemma_count_dom(e);
            if q.len() == 1 {
                assert(q.drop_last() =~= Seq::<Box<HuffmanNode>>::empty());
                assert(forest_freqs(q.drop_last()) == Map::<char, nat>::empty());
                assert(forest_total(q.drop_last()) == 0);
                assert(q.last() == q[0]);
                assert(forest_freqs(q) =~= q[0].leaf_freqs());
                lemma_leaves_nonempty(*q[0]);
            } else {
                assert(frequency_table@ =~= Map::<char, nat>::empty());
            }
        }
        priority_queue.pop()
    }

    /// Counts the occurrences of each character of `text`.
    pub fn build_frequency_table(text: &str) -> (r: FrequencyTable)
        requires
            text@.len() <= u32::MAX,
        ensures
            r.wf(),
            r@ == frequencies(text@),
            r.total() == text@.len(),
            r.entries@ == count_entries(text@),
    {
        let ghost s = text@;
        let mut frequency_table = FrequencyTable::new();
        proof {
            assert(frequencies(s.take(0)) =~= Map::<char, nat>::empty());
            assert(count_entries(s.take(0)) =~= Seq::<(char, u32)>::empty());
        }
        for c in it: text.chars()
            invariant
                it.seq() == s,
                s.len() <= u32::MAX,
                frequency_table.wf(),
                frequency_table@ == frequencies(s.take(it.index() as int)),
                frequency_table.total() == it.index(),
                frequency_table.entries@ == count_entries(s.take(it.index() as int)),
        {
            let ghost i = it.index() as int;
            proof {
                assert(s.take(i + 1) =~= s.take(i).push(c));
                lemma_frequencies_push(s.take(i), c);
                lemma_count_le(s.take(i), c);
                lemma_count_entries_push(s.take(i), c);
            }
            let ghost before = frequency_table;
            match frequency_table.get(c) {
                Some(n) => {
                    proof {
                        lemma_count_dom(frequency_table.entries@);
                        assert(frequency_table@.dom().contains(c));
                        let k = choose|k: int| 0 <= k < frequency_table.entries@.len() && frequency_table.entries@[k].0 == c;
                        assert(count_entries(s.take(i))[k].0 == c);
                    }
                    frequency_table.insert(c, n + 1);
                },
                None => {
                    proof {
                        lemma_count_missing(s.take(i), c);
                        assert forall|k: int| 0 <= k < frequency_table.entries@.len() implies frequency_table.entries@[k].0 != c by {
                            lemma_count_lookup(frequency_table.entries@, k);
                        }
                    }
                    frequency_table.insert(c, 1);
                },
            }
        }
        proof {
            assert(s.take(s.len() as int) =~= s);
        }
        frequency_table
    }

    /// Records in `code_table` the code of each character of the tree below
    /// `node`, each one after `prefix`.
    pub fn build_code_table(node: &HuffmanNode, prefix: String, code_table: &mut CodeTable)
        requires
            old(code_table).wf(),
        ensures
            final(code_table).wf(),
            final(code_table)@ == old(code_table)@.union_prefer_right(with_prefix(prefix@, node.codes())),
        decreases node,
    {
        if let Some(character) = node.character() {
            code_table.insert(character, prefix);
            proof {
                assert(with_prefix(prefix@, node.codes()) =~= map![character => prefix@]);
                assert(final(code_table)@ =~= old(code_table)@.union_prefer_right(with_prefix(prefix@, node.codes())));
            }
        } else {
            let ghost p = prefix@;
            let ghost lc = opt_codes(node.left);
            let ghost rc = opt_codes(node.right);
            if let Some(left) = node.left() {
                let mut new_prefix = prefix.clone();
                push_char(&mut new_prefix, '0');
                Huffman::build_code_table(left, new_prefix, code_table);
            }
            let ghost mid = code_table@;
            proof {
                assert(mid =~= old(code_table)@.union_prefer_right(with_prefix(p, prepend_bit('0', lc)))) by {
                    assert forall|c: char| #[trigger] lc.contains_key(c) implies p.push('0') + lc[c] =~= p + (seq!['0'] + lc[c]) by {}
                }
            }
            if let Some(right) = node.right() {
                let mut new_prefix = prefix.clone();
                push_char(&mut new_prefix, '1');
                Huffman::build_code_table(right, new_prefix, code_table);
            }
            proof {
                assert(code_table@ =~= mid.union_prefer_right(with_prefix(p, prepend_bit('1', rc)))) by {
                    assert forall|c: char| #[trigger] rc.contains_key(c) implies p.push('1') + rc[c] =~= p + (seq!['1'] + rc[c]) by {}
                }
                assert(code_table@ =~= old(code_table)@.union_prefer_right(with_prefix(p, node.codes())));
            }
        }
    }

    /// Concatenates the codes of the characters of `text`; characters without
    /// a code are skipped.
    pub fn encode_text(text: &str, code_table: &CodeTable) -> (r: String)
        requires
            code_table.wf(),
        ensures
            r@ == encode_bits(text@, code_table@),
    {
        let ghost s = text@;
        let mut encoded_text = String::new();
        proof {
            assert(encode_bits(s.take(0), code_table@) =~= Seq::<char>::empty());
        }
        for c in it: text.chars()
            invariant
                it.seq() == s,
                code_table.wf(),
                encoded_text@ == encode_bits(s.take(it.index() as int), code_table@),
        {
            let ghost i = it.index() as int;
            proof {
                assert(s.take(i + 1).drop_last() =~= s.take(i));
                assert(s.take(i + 1).last() == c);
            }
            if let Some(code) = code_table.get(c) {
                encoded_text.append(code.as_str());
            } else {
                assert(encoded_text@ =~= encoded_text@ + Seq::<char>::empty());
            }
        }
        proof {
            assert(s.take(s.len() as int) =~= s);
        }
        encoded_text
    }

    /// Walks the tree bit by bit from the root: '0' goes left, '1' goes right,
    /// other characters and missing children leave the walk in place; each
    /// character reached is emitted and the walk goes back to the root.
    pub fn decode_text(encoded_text: &str, huffman_tree: &HuffmanNode) -> (r: String)
        ensures
            r@ == decode_bits(*huffman_tree, *huffman_tree, encoded_text@),
    {
        let ghost root = *huffman_tree;
        let ghost bits = encoded_text@;
        let mut decoded_text = String::new();
        let mut current_node: &HuffmanNode = huffman_tree;
        proof {
            assert(bits.skip(0) =~= bits);
            assert(decoded_text@ + decode_bits(root, root, bits) =~= decode_bits(root, root, bits));
        }
        for bit in it: encoded_text.chars()
            invariant
                it.seq() == bits,
                root == *huffman_tree,
                decoded_text@ + decode_bits(root, *current_node, bits.skip(it.index() as int))
                    == decode_bits(root, root, bits),
        {
            let ghost i = it.index() as int;
            let ghost cur = *current_node;
            let ghost prev = decoded_text@;
            proof {
                assert(bits.skip(i).drop_first() =~= bits.skip(i + 1));
                assert(bits.skip(i)[0] == bit);
                assert(decode_bits(root, cur, bits.skip(i)) == match step(cur, bit).character {
                    Some(c) => seq![c] + decode_bits(root, root, bits.skip(i + 1)),
                    None => decode_bits(root, step(cur, bit), bits.skip(i + 1)),
                });
            }
            if bit == '0' {
                if let Some(left) = current_node.left() {
                    current_node = left;
                }
            } else if bit == '1' {
                if let Some(right) = current_node.right() {
                    current_node = right;
                }
            }
            assert(*current_node == step(cur, bit));
            if let Some(character) = current_node.character() {
                push_char(&mut decoded_text, character);
                current_node = huffman_tree;
                assert(decoded_text@ + decode_bits(root, root, bits.skip(i + 1))
                    =~= prev + (seq![character] + decode_bits(root, root, bits.skip(i + 1))));
            }
        }
        proof {
            assert(bits.skip(bits.len() as int) =~= Seq::<char>::empty());
            assert(decoded_text@ + Seq::<char>::empty() =~= decoded_text@);
        }
        decoded_text
    }
}

/// Decoding the encoding of a text with the coder built from that text gives
/// the text back, when the text holds at least two distinct characters.
pub proof fn lemma_round_trip(h: Huffman, text: Seq<char>)
    requires
        h.built_from(text),
        exists|i: int, j: int| 0 <= i < text.len() && 0 <= j < text.len() && text[i] != text[j],
    ensures
        h.tree() matches Some(t) && h.table() matches Some(ct)
            && decode_bits(*t, *t, encode_bits(text, ct@)) == text,
{
    let t = *h.tree()->Some_0;
    let ct = h.table()->Some_0;
    let (i, j) = choose|i: int, j: int| 0 <= i < text.len() && 0 <= j < text.len() && text[i] != text[j];
    assert(text.contains(text[i]) && text.contains(text[j]));
    if t.character is Some {
        assert(t.leaf_freqs().dom() =~= set![t.character->Some_0]);
        assert(t.leaf_freqs().contains_key(text[i]) && t.leaf_freqs().contains_key(text[j]));
    }
    lemma_codes_dom(t);
    assert forall|k: int| 0 <= k < text.len() implies t.codes().contains_key(#[trigger] text[k]) by {
        assert(text.contains(text[k]));
        assert(frequencies(text).contains_key(text[k]));
    }
    lemma_decode_encoded(t, text, Seq::empty());
    assert(encode_bits(text, ct@) + Seq::<char>::empty() =~= encode_bits(text, ct@));
    assert(text + decode_bits(t, t, Seq::<char>::empty()) =~= text);
}

/// In the code table built from any text, no character's code is a prefix of
/// another character's code.
pub proof fn lemma_built_prefix_free(h: Huffman, text: Seq<char>)
    requires
        h.built_from(text),
    ensures
        h.table() matches Some(ct) ==> forall|c: char, d: char|
            ct@.contains_key(c) && ct@.contains_key(d) && c != d ==> !is_prefix(#[trigger] ct@[c], #[trigger] ct@[d]),
{
    if text.len() > 0 {
        lemma_prefix_free(*h.tree()->Some_0);
    }
}

/// Encoding a text made of one character repeated gives no bits.
pub proof fn lemma_encode_repeated(text: Seq<char>, c: char)
    requires
        forall|i: int| 0 <= i < text.len() ==> text[i] == c,
    ensures
        encode_bits(text, map![c => Seq::<char>::empty()]) == Seq::<char>::empty(),
    decreases text.len(),
{
    if text.len() > 0 {
        lemma_encode_repeated(text.drop_last(), c);
        assert(text[text.len() - 1] == c);
        assert(encode_bits(text, map![c => Seq::<char>::empty()]) =~= Seq::<char>::empty());
    }
}

/// Building from a non-empty text of one repeated character gives that
/// character the empty code, so that any text of that character encodes to no
/// bits.
pub proof fn lemma_single_symbol(h: Huffman, text: Seq<char>, c: char, other: Seq<char>)
    requires
        h.built_from(text),
        text.len() > 0,
        forall|i: int| 0 <= i < text.len() ==> text[i] == c,
        forall|i: int| 0 <= i < other.len() ==> other[i] == c,
    ensures
        h.table() matches Some(ct) && ct@ == map![c => Seq::<char>::empty()],
        h.table() matches Some(ct) && encode_bits(other, ct@) == Seq::<char>::empty(),
{
    let t = *h.tree()->Some_0;
    assert forall|d: char| frequencies(text).contains_key(d) implies d == c by {
        let k = choose|k: int| 0 <= k < text.len() && text[k] == d;
    }
    if t.character is None {
        lemma_internal_two_leaves(t);
    }
    assert(text.contains(text[0]));
    assert(t.leaf_freqs().contains_key(c));
    assert(t.codes() =~= map![c => Seq::<char>::empty()]);
    lemma_encode_repeated(other, c);
}

} // verus!
