use vstd::prelude::*;

verus! {

/// The number of occurrences of `c` in `s`.
pub open spec fn count(s: Seq<char>, c: char) -> nat
    decreases s.len(),
{
    if s.len() == 0 {
        0
    } else {
        count(s.drop_last(), c) + if s.last() == c {
            1nat
        } else {
            0nat
        }
    }
}

/// Each character of `s` with its number of occurrences.
pub open spec fn frequencies(s: Seq<char>) -> Map<char, nat> {
    Map::new(|c: char| s.contains(c), |c: char| count(s, c))
}

/// The distinct characters of `s`, in order of first occurrence.
pub open spec fn distinct_chars(s: Seq<char>) -> Seq<char>
    decreases s.len(),
{
    if s.len() == 0 {
        Seq::empty()
    } else if s.drop_last().contains(s.last()) {
        distinct_chars(s.drop_last())
    } else {
        distinct_chars(s.drop_last()).push(s.last())
    }
}

/// Each distinct character of `s` with its count, in order of first occurrence.
pub open spec fn count_entries(s: Seq<char>) -> Seq<(char, u32)> {
    distinct_chars(s).map_values(|c: char| (c, count(s, c) as u32))
}

pub proof fn lemma_distinct_chars(s: Seq<char>)
    ensures
        forall|c: char| distinct_chars(s).contains(c) <==> s.contains(c),
        forall|i: int, j: int|
            0 <= i < j < distinct_chars(s).len() ==> distinct_chars(s)[i] != distinct_chars(s)[j],
    decreases s.len(),
{
    if s.len() > 0 {
        let d = s.drop_last();
        lemma_distinct_chars(d);
        assert forall|c: char| s.contains(c) <==> (d.contains(c) || c == s.last()) by {
            if s.contains(c) && c != s.last() {
                let k = choose|k: int| 0 <= k < s.len() && s[k] == c;
                assert(d[k] == c);
            }
            if d.contains(c) {
                let k = choose|k: int| 0 <= k < d.len() && d[k] == c;
                assert(s[k] == c);
            }
            if c == s.last() {
                assert(s[s.len() - 1] == c);
            }
        }
        if !d.contains(s.last()) {
            let ds = distinct_chars(d);
            assert forall|c: char| ds.push(s.last()).contains(c) <==> (ds.contains(c) || c == s.last()) by {
                if ds.push(s.last()).contains(c) && c != s.last() {
                    let k = choose|k: int| 0 <= k < ds.len() + 1 && ds.push(s.last())[k] == c;
                    assert(ds[k] == c);
                }
                if ds.contains(c) {
                    let k = choose|k: int| 0 <= k < ds.len() && ds[k] == c;
                    assert(ds.push(s.last())[k] == c);
                }
                if c == s.last() {
                    assert(ds.push(s.last())[ds.len() as int] == c);
                }
            }
        }
    }
}

/// Adding one character to a text either adds one to the count of its entry
/// or adds a new entry at the end.
pub proof fn lemma_count_entries_push(s: Seq<char>, c: char)
    requires
        s.len() + 1 <= u32::MAX,
    ensures
        keys_unique(count_entries(s)),
        forall|k: int| 0 <= k < count_entries(s).len() && count_entries(s)[k].0 == c
            ==> count_entries(s.push(c)) == count_entries(s).update(k, (c, (count(s, c) + 1) as u32)),
        (forall|k: int| 0 <= k < count_entries(s).len() ==> count_entries(s)[k].0 != c)
            ==> count_entries(s.push(c)) == count_entries(s).push((c, 1u32)),
{
    let t = s.push(c);
    assert(t.drop_last() =~= s);
    assert(t.last() == c);
    lemma_distinct_chars(s);
    let ds = distinct_chars(s);
    assert forall|d: char| d != c implies count(t, d) == count(s, d) by {}
    assert(count(t, c) == count(s, c) + 1);
    if s.contains(c) {
        let k = choose|k: int| 0 <= k < ds.len() && ds[k] == c;
        assert(count_entries(s)[k].0 == c);
        assert forall|k2: int| 0 <= k2 < count_entries(s).len() && count_entries(s)[k2].0 == c implies
            count_entries(t) == count_entries(s).update(k2, (c, (count(s, c) + 1) as u32)) by {
            assert(count_entries(t) =~= count_entries(s).update(k2, (c, (count(s, c) + 1) as u32)));
        }
    } else {
        lemma_count_missing(s, c);
        assert(count_entries(t) =~= count_entries(s).push((c, 1u32)));
    }
}

/// The concatenation of the codes of the characters of `text`, in order;
/// a character without a code adds nothing.
pub open spec fn encode_bits(text: Seq<char>, table: Map<char, Seq<char>>) -> Seq<char>
    decreases text.len(),
{
    if text.len() == 0 {
        Seq::empty()
    } else {
        encode_bits(text.drop_last(), table) + if table.contains_key(text.last()) {
            table[text.last()]
        } else {
            Seq::empty()
        }
    }
}

/// The encoding of two texts one after the other is the concatenation of
/// their encodings.
pub proof fn lemma_encode_concat(a: Seq<char>, b: Seq<char>, table: Map<char, Seq<char>>)
    ensures
        encode_bits(a + b, table) == encode_bits(a, table) + encode_bits(b, table),
    decreases b.len(),
{
    if b.len() == 0 {
        assert(a + b =~= a);
        assert(encode_bits(a, table) + encode_bits(b, table) =~= encode_bits(a, table));
    } else {
        lemma_encode_concat(a, b.drop_last(), table);
        assert((a + b).drop_last() =~= a + b.drop_last());
        assert((a + b).last() == b.last());
        assert(encode_bits(a + b, table) =~= encode_bits(a, table) + encode_bits(b, table));
    }
}

/// A character without a code adds no bits wherever it stands in the text.
pub proof fn lemma_unknown_skipped(a: Seq<char>, c: char, b: Seq<char>, table: Map<char, Seq<char>>)
    requires
        !table.contains_key(c),
    ensures
        encode_bits(a + seq![c] + b, table) == encode_bits(a + b, table),
{
    lemma_encode_concat(a + seq![c], b, table);
    lemma_encode_concat(a, b, table);
    assert((a + seq![c]).drop_last() =~= a);
    assert(encode_bits(a + seq![c], table) =~= encode_bits(a, table));
}

pub proof fn lemma_count_le(s: Seq<char>, c: char)
    ensures
        count(s, c) <= s.len(),
    decreases s.len(),
{
    if s.len() > 0 {
        lemma_count_le(s.drop_last(), c);
    }
}

pub proof fn lemma_count_missing(s: Seq<char>, c: char)
    requires
        !s.contains(c),
    ensures
        count(s, c) == 0,
    decreases s.len(),
{
    if s.len() > 0 {
        assert(s[s.len() - 1] != c);
        assert forall|k: int| 0 <= k < s.drop_last().len() implies s.drop_last()[k] != c by {
            assert(s[k] != c);
        }
        lemma_count_missing(s.drop_last(), c);
    }
}

/// Adding one character to a text adds one to its count.
pub proof fn lemma_frequencies_push(s: Seq<char>, c: char)
    ensures
        frequencies(s.push(c)) == frequencies(s).insert(c, count(s, c) + 1),
{
    let t = s.push(c);
    assert(t.drop_last() =~= s);
    assert forall|d: char| t.contains(d) <==> (s.contains(d) || d == c) by {
        if t.contains(d) && d != c {
            let k = choose|k: int| 0 <= k < t.len() && t[k] == d;
            assert(s[k] == d);
        }
        if s.contains(d) {
            let k = choose|k: int| 0 <= k < s.len() && s[k] == d;
            assert(t[k] == d);
        }
        if d == c {
            assert(t[s.len() as int] == d);
        }
    }
    assert(frequencies(t) =~= frequencies(s).insert(c, count(s, c) + 1));
}

/// No key stands twice in `e`.
pub open spec fn keys_unique<V>(e: Seq<(char, V)>) -> bool {
    forall|i: int, j: int| 0 <= i < j < e.len() ==> e[i].0 != e[j].0
}

/// The mapping that a list of (character, count) entries stands for.
pub open spec fn count_map(e: Seq<(char, u32)>) -> Map<char, nat>
    decreases e.len(),
{
    if e.len() == 0 {
        Map::empty()
    } else {
        count_map(e.drop_last()).insert(e.last().0, e.last().1 as nat)
    }
}

/// The sum of the counts of a list of entries.
pub open spec fn count_total(e: Seq<(char, u32)>) -> int
    decreases e.len(),
{
    if e.len() == 0 {
        0
    } else {
        count_total(e.drop_last()) + e.last().1
    }
}

/// The mapping that a list of (character, code) entries stands for.
pub open spec fn code_map(e: Seq<(char, String)>) -> Map<char, Seq<char>>
    decreases e.len(),
{
    if e.len() == 0 {
        Map::empty()
    } else {
        code_map(e.drop_last()).insert(e.last().0, e.last().1@)
    }
}

pub proof fn lemma_count_lookup(e: Seq<(char, u32)>, k: int)
    requires
        keys_unique(e),
        0 <= k < e.len(),
    ensures
        count_map(e).contains_key(e[k].0),
        count_map(e)[e[k].0] == e[k].1 as nat,
    decreases e.len(),
{
    if k < e.len() - 1 {
        lemma_count_lookup(e.drop_last(), k);
    }
}

pub proof fn lemma_count_absent(e: Seq<(char, u32)>, c: char)
    requires
        forall|k: int| 0 <= k < e.len() ==> e[k].0 != c,
    ensures
        !count_map(e).contains_key(c),
    decreases e.len(),
{
    if e.len() > 0 {
        lemma_count_absent(e.drop_last(), c);
    }
}

pub proof fn lemma_count_update(e: Seq<(char, u32)>, k: int, v: u32)
    requires
        keys_unique(e),
        0 <= k < e.len(),
    ensures
        count_map(e.update(k, (e[k].0, v))) == count_map(e).insert(e[k].0, v as nat),
        count_total(e.update(k, (e[k].0, v))) == count_total(e) - e[k].1 + v,
    decreases e.len(),
{
    let u = e.update(k, (e[k].0, v));
    if k == e.len() - 1 {
        assert(u.drop_last() =~= e.drop_last());
        lemma_count_absent(e.drop_last(), e[k].0);
        assert(count_map(u) =~= count_map(e).insert(e[k].0, v as nat));
    } else {
        lemma_count_update(e.drop_last(), k, v);
        assert(u.drop_last() =~= e.drop_last().update(k, (e[k].0, v)));
        assert(count_map(u) =~= count_map(e).insert(e[k].0, v as nat));
    }
}

pub proof fn lemma_code_lookup(e: Seq<(char, String)>, k: int)
    requires
        keys_unique(e),
        0 <= k < e.len(),
    ensures
        code_map(e).contains_key(e[k].0),
        code_map(e)[e[k].0] == e[k].1@,
    decreases e.len(),
{
    if k < e.len() - 1 {
        lemma_code_lookup(e.drop_last(), k);
    }
}

pub proof fn lemma_code_absent(e: Seq<(char, String)>, c: char)
    requires
        forall|k: int| 0 <= k < e.len() ==> e[k].0 != c,
    ensures
        !code_map(e).contains_key(c),
    decreases e.len(),
{
    if e.len() > 0 {
        lemma_code_absent(e.drop_last(), c);
    }
}

pub proof fn lemma_code_update(e: Seq<(char, String)>, k: int, s: String)
    requires
        keys_unique(e),
        0 <= k < e.len(),
    ensures
        code_map(e.update(k, (e[k].0, s))) == code_map(e).insert(e[k].0, s@),
    decreases e.len(),
{
    let u = e.update(k, (e[k].0, s));
    if k == e.len() - 1 {
        assert(u.drop_last() =~= e.drop_last());
        lemma_code_absent(e.drop_last(), e[k].0);
        assert(code_map(u) =~= code_map(e).insert(e[k].0, s@));
    } else {
        lemma_code_update(e.drop_last(), k, s);
        assert(u.drop_last() =~= e.drop_last().update(k, (e[k].0, s)));
        assert(code_map(u) =~= code_map(e).insert(e[k].0, s@));
    }
}

/// The number of occurrences of each character, as a list of entries with
/// distinct characters.
#[derive(Clone, Debug)]
pub struct FrequencyTable {
    pub entries: Vec<(char, u32)>,
}

impl View for FrequencyTable {
    type V = Map<char, nat>;

    open spec fn view(&self) -> Map<char, nat> {
        count_map(self.entries@)
    }
}

impl FrequencyTable {
    pub open spec fn wf(self) -> bool {
        keys_unique(self.entries@)
    }

    /// The sum of all counts.
    pub open spec fn total(self) -> int {
        count_total(self.entries@)
    }

    /// Creates an empty table.
    pub fn new() -> (r: Self)
        ensures
            r.wf(),
            r@ == Map::<char, nat>::empty(),
            r.total() == 0,
            r.entries@ == Seq::<(char, u32)>::empty(),
    {
        FrequencyTable { entries: Vec::new() }
    }

    /// The number of distinct characters.
    pub fn len(&self) -> (r: usize)
        requires
            self.wf(),
        ensures
            r == self@.len(),
    {
        proof {
            lemma_count_dom(self.entries@);
        }
        self.entries.len()
    }

    /// The index of the entry for `c`, if any.
    fn find(&self, c: char) -> (r: Option<usize>)
        requires
            self.wf(),
        ensures
            r matches Some(k) ==> k < self.entries@.len() && self.entries@[k as int].0 == c,
            r is None ==> forall|k: int| 0 <= k < self.entries@.len() ==> self.entries@[k].0 != c,
    {
        let mut i: usize = 0;
        while i < self.entries.len()
            invariant
                i <= self.entries@.len(),
                forall|k: int| 0 <= k < i ==> self.entries@[k].0 != c,
            decreases self.entries@.len() - i,
        {
            if self.entries[i].0 == c {
                return Some(i);
            }
            i = i + 1;
        }
        None
    }

    /// The count of `c`, `None` when it is absent.
    pub fn get(&self, c: char) -> (r: Option<u32>)
        requires
            self.wf(),
        ensures
            r matches Some(v) ==> self@.contains_key(c) && self@[c] == v as nat,
            r is None <==> !self@.contains_key(c),
    {
        match self.find(c) {
            Some(k) => {
                proof {
                    lemma_count_lookup(self.entries@, k as int);
                }
                Some(self.entries[k].1)
            },
            None => {
                proof {
                    lemma_count_absent(self.entries@, c);
                }
                None
            },
        }
    }

    /// Sets the count of `c` to `v`.
    pub fn insert(&mut self, c: char, v: u32)
        requires
            old(self).wf(),
        ensures
            final(self).wf(),
            final(self)@ == old(self)@.insert(c, v as nat),
            final(self).total() == old(self).total() + v - if old(self)@.contains_key(c) {
                old(self)@[c] as int
            } else {
                0
            },
            forall|k: int| 0 <= k < old(self).entries@.len() && old(self).entries@[k].0 == c
                ==> final(self).entries@ == old(self).entries@.update(k, (c, v)),
            (forall|k: int| 0 <= k < old(self).entries@.len() ==> old(self).entries@[k].0 != c)
                ==> final(self).entries@ == old(self).entries@.push((c, v)),
    {
        match self.find(c) {
            Some(k) => {
                proof {
                    lemma_count_update(self.entries@, k as int, v);
                    lemma_count_lookup(self.entries@, k as int);
                }
                self.entries.set(k, (c, v));
            },
            None => {
                proof {
                    lemma_count_absent(self.entries@, c);
                }
                self.entries.push((c, v));
                proof {
                    assert(self.entries@.drop_last() =~= old(self).entries@);
                }
            },
        }
    }
}

/// Each character's code, as a list of entries with distinct characters.
#[derive(Debug)]
pub struct CodeTable {
    pub entries: Vec<(char, String)>,
}

impl View for CodeTable {
    type V = Map<char, Seq<char>>;

    open spec fn view(&self) -> Map<char, Seq<char>> {
        code_map(self.entries@)
    }
}

impl CodeTable {
    pub open spec fn wf(self) -> bool {
        keys_unique(self.entries@)
    }

    /// Creates an empty table.
    pub fn new() -> (r: Self)
        ensures
            r.wf(),
            r@ == Map::<char, Seq<char>>::empty(),
    {
        CodeTable { entries: Vec::new() }
    }

    /// The index of the entry for `c`, if any.
    fn find(&self, c: char) -> (r: Option<usize>)
        requires
            self.wf(),
        ensures
            r matches Some(k) ==> k < self.entries@.len() && self.entries@[k as int].0 == c,
            r is None ==> forall|k: int| 0 <= k < self.entries@.len() ==> self.entries@[k].0 != c,
    {
        let mut i: usize = 0;
        while i < self.entries.len()
            invariant
                i <= self.entries@.len(),
                forall|k: int| 0 <= k < i ==> self.entries@[k].0 != c,
            decreases self.entries@.len() - i,
        {
            if self.entries[i].0 == c {
                return Some(i);
            }
            i = i + 1;
        }
        None
    }

    /// The code of `c`, `None` when it is absent.
    pub fn get(&self, c: char) -> (r: Option<&String>)
        requires
            self.wf(),
        ensures
            r matches Some(s) ==> self@.contains_key(c) && self@[c] == s@,
            r is None <==> !self@.contains_key(c),
    {
        match self.find(c) {
            Some(k) => {
                proof {
                    lemma_code_lookup(self.entries@, k as int);
                }
                Some(&self.entries[k].1)
            },
            None => {
                proof {
                    lemma_code_absent(self.entries@, c);
                }
                None
            },
        }
    }

    /// Sets the code of `c` to `code`.
    pub fn insert(&mut self, c: char, code: String)
        requires
            old(self).wf(),
        ensures
            final(self).wf(),
            final(self)@ == old(self)@.insert(c, code@),
    {
        match self.find(c) {
            Some(k) => {
                proof {
                    lemma_code_update(self.entries@, k as int, code);
                }
                self.entries.set(k, (c, code));
            },
            None => {
                self.entries.push((c, code));
                proof {
                    assert(self.entries@.drop_last() =~= old(self).entries@);
                }
            },
        }
    }

    /// The number of characters in the table.
    pub fn len(&self) -> (r: usize)
        requires
            self.wf(),
        ensures
            r == self@.len(),
    {
        proof {
            lemma_code_dom(self.entries@);
        }
        self.entries.len()
    }
}

/// Entries with the same characters and codes stand for the same mapping.
pub proof fn lemma_code_map_same(a: Seq<(char, String)>, b: Seq<(char, String)>)
    requires
        a.len() == b.len(),
        forall|k: int| 0 <= k < a.len() ==> a[k].0 == b[k].0 && a[k].1@ == b[k].1@,
    ensures
        code_map(a) == code_map(b),
    decreases a.len(),
{
    if a.len() > 0 {
        lemma_code_map_same(a.drop_last(), b.drop_last());
    }
}

impl Clone for CodeTable {
    fn clone(&self) -> (r: Self)
        ensures
            r@ == self@,
            r.wf() == self.wf(),
    {
        let mut entries: Vec<(char, String)> = Vec::new();
        for i in 0..self.entries.len()
            invariant
                entries@.len() == i,
                forall|k: int| 0 <= k < i ==> entries@[k].0 == self.entries@[k].0 && entries@[k].1@ == self.entries@[k].1@,
        {
            let (c, code) = &self.entries[i];
            entries.push((*c, code.clone()));
        }
        proof {
            lemma_code_map_same(entries@, self.entries@);
            if keys_unique(self.entries@) {
                assert forall|i: int, j: int| 0 <= i < j < entries@.len() implies entries@[i].0 != entries@[j].0 by {
                    assert(self.entries@[i].0 != self.entries@[j].0);
                }
            }
            if keys_unique(entries@) {
                assert forall|i: int, j: int| 0 <= i < j < entries@.len() implies self.entries@[i].0 != self.entries@[j].0 by {
                    assert(entries@[i].0 != entries@[j].0);
                }
            }
        }
        CodeTable { entries }
    }
}

pub proof fn lemma_code_dom(e: Seq<(char, String)>)
    requires
        keys_unique(e),
    ensures
        code_map(e).dom().finite(),
        code_map(e).len() == e.len(),
    decreases e.len(),
{
    if e.len() == 0 {
        assert(code_map(e).dom() =~= Set::empty());
    } else {
        let d = e.drop_last();
        lemma_code_dom(d);
        lemma_code_absent(d, e.last().0);
        assert(code_map(e).dom() =~= code_map(d).dom().insert(e.last().0));
    }
}

pub proof fn lemma_count_dom(e: Seq<(char, u32)>)
    requires
        keys_unique(e),
    ensures
        count_map(e).dom() == Set::new(|c: char| exists|k: int| 0 <= k < e.len() && e[k].0 == c),
        count_map(e).dom().finite(),
        count_map(e).len() == e.len(),
    decreases e.len(),
{
    let s = Set::new(|c: char| exists|k: int| 0 <= k < e.len() && e[k].0 == c);
    if e.len() == 0 {
        assert(count_map(e).dom() =~= s);
    } else {
        let d = e.drop_last();
        lemma_count_dom(d);
        lemma_count_absent(d, e.last().0);
        assert forall|c: char| s.contains(c) implies count_map(e).dom().contains(c) by {
            let k = choose|k: int| 0 <= k < e.len() && e[k].0 == c;
            if k < e.len() - 1 {
                assert(d[k].0 == c);
            }
        }
        assert forall|c: char| count_map(e).dom().contains(c) implies s.contains(c) by {
            if c != e.last().0 {
                let k = choose|k: int| 0 <= k < d.len() && d[k].0 == c;
                assert(e[k].0 == c);
            } else {
                assert(e[e.len() - 1].0 == c);
            }
        }
        assert(count_map(e).dom() =~= s);
        assert(count_map(e).dom() =~= count_map(d).dom().insert(e.last().0));
    }
}

} // verus!
