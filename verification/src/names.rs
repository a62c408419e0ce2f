//! Tables keyed by symbol text: the symbol table that numbers the grammar's
//! symbols and the keyword table that maps a keyword's text to its kind.
//! Both keep their keys distinct, so that a later insert of a key replaces
//! its earlier value, as a `HashMap` does.
use vstd::prelude::*;

verus! {

/// The map that the parallel sequences `keys` and `vals` stand for, the later
/// entries taking precedence.
pub open spec fn assoc<V>(keys: Seq<Seq<char>>, vals: Seq<V>) -> Map<Seq<char>, V>
    decreases keys.len(),
{
    if keys.len() == 0 || vals.len() == 0 {
        Map::empty()
    } else {
        assoc(keys.drop_last(), vals.drop_last()).insert(keys.last(), vals.last())
    }
}

/// The texts of a sequence of strings.
pub open spec fn texts(v: Seq<String>) -> Seq<Seq<char>> {
    v.map_values(|s: String| s@)
}

pub proof fn lemma_assoc_dom<V>(keys: Seq<Seq<char>>, vals: Seq<V>)
    requires
        keys.len() == vals.len(),
    ensures
        forall|k: Seq<char>| #[trigger] assoc(keys, vals).contains_key(k) <==> keys.contains(k),
        assoc(keys, vals).dom().finite(),
    decreases keys.len(),
{
    if keys.len() > 0 {
        lemma_assoc_dom(keys.drop_last(), vals.drop_last());
        assert forall|k: Seq<char>| #[trigger] assoc(keys, vals).contains_key(k) <==> keys.contains(
            k,
        ) by {
            if keys.contains(k) {
                let i = choose|i: int| 0 <= i < keys.len() && keys[i] == k;
                if i < keys.len() - 1 {
                    assert(keys.drop_last()[i] == k);
                }
            }
            if keys.drop_last().contains(k) {
                let i = choose|i: int| 0 <= i < keys.len() - 1 && keys.drop_last()[i] == k;
                assert(keys[i] == k);
            }
        }
    }
}

pub proof fn lemma_assoc_value<V>(keys: Seq<Seq<char>>, vals: Seq<V>, i: int)
    requires
        keys.len() == vals.len(),
        keys.no_duplicates(),
        0 <= i < keys.len(),
    ensures
        assoc(keys, vals).contains_key(keys[i]),
        assoc(keys, vals)[keys[i]] == vals[i],
    decreases keys.len(),
{
    lemma_assoc_dom(keys, vals);
    if i < keys.len() - 1 {
        assert(keys.drop_last()[i] == keys[i]);
        assert(keys.drop_last().no_duplicates());
        lemma_assoc_value(keys.drop_last(), vals.drop_last(), i);
    }
}

pub proof fn lemma_assoc_len<V>(keys: Seq<Seq<char>>, vals: Seq<V>)
    requires
        keys.len() == vals.len(),
        keys.no_duplicates(),
    ensures
        assoc(keys, vals).len() == keys.len(),
    decreases keys.len(),
{
    if keys.len() > 0 {
        assert(keys.drop_last().no_duplicates());
        lemma_assoc_len(keys.drop_last(), vals.drop_last());
        lemma_assoc_dom(keys.drop_last(), vals.drop_last());
        assert(!keys.drop_last().contains(keys.last())) by {
            if keys.drop_last().contains(keys.last()) {
                let j = choose|j: int|
                    0 <= j < keys.len() - 1 && keys.drop_last()[j] == keys.last();
                assert(keys[j] == keys[keys.len() - 1]);
            }
        }
    }
}

pub proof fn lemma_assoc_update<V>(keys: Seq<Seq<char>>, vals: Seq<V>, i: int, v: V)
    requires
        keys.len() == vals.len(),
        keys.no_duplicates(),
        0 <= i < keys.len(),
    ensures
        assoc(keys, vals.update(i, v)) == assoc(keys, vals).insert(keys[i], v),
    decreases keys.len(),
{
    let n = keys.len() - 1;
    if i == n {
        assert(vals.update(i, v).drop_last() =~= vals.drop_last());
        lemma_assoc_dom(keys.drop_last(), vals.drop_last());
        assert(!keys.drop_last().contains(keys[i])) by {
            if keys.drop_last().contains(keys[i]) {
                let j = choose|j: int| 0 <= j < n && keys.drop_last()[j] == keys[i];
                assert(keys[j] == keys[i]);
            }
        }
        assert(assoc(keys, vals.update(i, v)) =~= assoc(keys, vals).insert(keys[i], v));
    } else {
        assert(keys.drop_last().no_duplicates());
        assert(vals.update(i, v).drop_last() =~= vals.drop_last().update(i, v));
        assert(keys.drop_last()[i] == keys[i]);
        lemma_assoc_update(keys.drop_last(), vals.drop_last(), i, v);
        assert(keys[i] != keys.last());
        assert(assoc(keys, vals.update(i, v)) =~= assoc(keys, vals).insert(keys[i], v));
    }
}

/// The position of `k` among `keys`, if it is there.
pub fn find_key(keys: &Vec<String>, k: &String) -> (r: Option<usize>)
    ensures
        match r {
            Some(i) => i < keys@.len() && keys@[i as int]@ == k@,
            None => !texts(keys@).contains(k@),
        },
{
    let mut i: usize = 0;
    while i < keys.len()
        invariant
            i <= keys@.len(),
            forall|j: int| 0 <= j < i ==> keys@[j]@ != k@,
        decreases keys@.len() - i,
    {
        if keys[i] == *k {
            return Some(i);
        }
        i = i + 1;
    }
    assert(!texts(keys@).contains(k@)) by {
        if texts(keys@).contains(k@) {
            let j = choose|j: int| 0 <= j < keys@.len() && texts(keys@)[j] == k@;
            assert(keys@[j]@ == k@);
        }
    }
    None
}

/// The symbol table: a name for each symbol number, as the grammar's files
/// give them.
pub struct SymbolTable {
    names: Vec<String>,
    ids: Vec<i32>,
}

impl View for SymbolTable {
    type V = Map<Seq<char>, i32>;

    closed spec fn view(&self) -> Map<Seq<char>, i32> {
        assoc(texts(self.names@), self.ids@)
    }
}

impl SymbolTable {
    #[verifier::type_invariant]
    closed spec fn inv(self) -> bool {
        &&& self.names@.len() == self.ids@.len()
        &&& texts(self.names@).no_duplicates()
    }

    /// An empty table.
    pub fn new() -> (t: Self)
        ensures
            t@ == Map::<Seq<char>, i32>::empty(),
    {
        let t = SymbolTable { names: Vec::new(), ids: Vec::new() };
        assert(t@ =~= Map::<Seq<char>, i32>::empty());
        t
    }

    /// Maps `name` to `id`, replacing what `name` was mapped to before.
    pub fn insert(&mut self, name: String, id: i32)
        ensures
            final(self)@ == old(self)@.insert(name@, id),
    {
        let mut t = SymbolTable::new();
        std::mem::swap(self, &mut t);
        proof {
            use_type_invariant(&t);
        }
        let SymbolTable { mut names, mut ids } = t;
        match find_key(&names, &name) {
            Some(i) => {
                proof {
                    lemma_assoc_update(texts(names@), ids@, i as int, id);
                }
                ids.set(i, id);
            },
            None => {
                let ghost old_names = names@;
                let ghost old_ids = ids@;
                names.push(name);
                ids.push(id);
                assert(texts(names@).drop_last() =~= texts(old_names));
                assert(ids@.drop_last() =~= old_ids);
                assert(texts(names@).no_duplicates()) by {
                    assert forall|a: int, b: int|
                        0 <= a < b < texts(names@).len() implies texts(names@)[a]
                        != texts(names@)[b] by {
                        assert(texts(old_names)[a] == texts(names@)[a]);
                        if b < old_names.len() {
                            assert(texts(old_names)[b] == texts(names@)[b]);
                        }
                    }
                }
            },
        }
        *self = SymbolTable { names, ids };
    }

    /// The number `name` is mapped to, if any.
    pub fn get(&self, name: &String) -> (r: Option<i32>)
        ensures
            r == (if self@.contains_key(name@) {
                Some(self@[name@])
            } else {
                None::<i32>
            }),
    {
        proof {
            use_type_invariant(self);
            lemma_assoc_dom(texts(self.names@), self.ids@);
        }
        match find_key(&self.names, name) {
            Some(i) => {
                proof {
                    lemma_assoc_value(texts(self.names@), self.ids@, i as int);
                }
                Some(self.ids[i])
            },
            None => None,
        }
    }

    /// The number of names in the table.
    pub fn len(&self) -> (n: usize)
        ensures
            n == self@.len(),
    {
        proof {
            use_type_invariant(self);
            lemma_assoc_len(texts(self.names@), self.ids@);
        }
        self.names.len()
    }

    /// Whether some name is mapped to `id`.
    pub fn has_id(&self, id: i32) -> (b: bool)
        ensures
            b == has_id(self@, id),
    {
        proof {
            use_type_invariant(self);
            lemma_assoc_dom(texts(self.names@), self.ids@);
        }
        let mut i: usize = 0;
        while i < self.ids.len()
            invariant
                i <= self.ids@.len(),
                self.ids@.len() == self.names@.len(),
                texts(self.names@).no_duplicates(),
                forall|j: int| 0 <= j < i ==> self.ids@[j] != id,
            decreases self.ids@.len() - i,
        {
            if self.ids[i] == id {
                proof {
                    lemma_assoc_value(texts(self.names@), self.ids@, i as int);
                }
                assert(self@.contains_key(texts(self.names@)[i as int]));
                return true;
            }
            i = i + 1;
        }
        assert(!has_id(self@, id)) by {
            if has_id(self@, id) {
                let k = choose|k: Seq<char>| self@.contains_key(k) && self@[k] == id;
                assert(texts(self.names@).contains(k));
                let j = choose|j: int| 0 <= j < texts(self.names@).len() && texts(self.names@)[j] == k;
                lemma_assoc_value(texts(self.names@), self.ids@, j);
            }
        }
        false
    }

    /// The numbers that some name is mapped to.
    pub fn ids(&self) -> (r: Vec<i32>)
        ensures
            forall|v: i32| r@.contains(v) <==> has_id(self@, v),
    {
        proof {
            use_type_invariant(self);
            lemma_assoc_dom(texts(self.names@), self.ids@);
        }
        let mut r: Vec<i32> = Vec::new();
        let mut i: usize = 0;
        while i < self.ids.len()
            invariant
                i <= self.ids@.len(),
                self.ids@.len() == self.names@.len(),
                r@ == self.ids@.take(i as int),
            decreases self.ids@.len() - i,
        {
            r.push(self.ids[i]);
            i = i + 1;
            assert(r@ =~= self.ids@.take(i as int));
        }
        assert(r@ =~= self.ids@);
        assert forall|v: i32| r@.contains(v) <==> has_id(self@, v) by {
            if r@.contains(v) {
                let j = choose|j: int| 0 <= j < r@.len() && r@[j] == v;
                lemma_assoc_value(texts(self.names@), self.ids@, j);
                assert(self@.contains_key(texts(self.names@)[j]));
            }
            if has_id(self@, v) {
                let k = choose|k: Seq<char>| self@.contains_key(k) && self@[k] == v;
                assert(texts(self.names@).contains(k));
                let j = choose|j: int| 0 <= j < texts(self.names@).len() && texts(self.names@)[j] == k;
                lemma_assoc_value(texts(self.names@), self.ids@, j);
                assert(r@[j] == v);
            }
        }
        r
    }

    /// A name that is mapped to `id`, if there is one.
    pub fn name_of(&self, id: i32) -> (r: Option<String>)
        ensures
            r is None <==> !has_id(self@, id),
            r matches Some(n) ==> self@.contains_key(n@) && self@[n@] == id,
    {
        proof {
            use_type_invariant(self);
            lemma_assoc_dom(texts(self.names@), self.ids@);
        }
        let mut i: usize = 0;
        while i < self.ids.len()
            invariant
                i <= self.ids@.len(),
                self.ids@.len() == self.names@.len(),
                texts(self.names@).no_duplicates(),
                forall|j: int| 0 <= j < i ==> self.ids@[j] != id,
            decreases self.ids@.len() - i,
        {
            if self.ids[i] == id {
                proof {
                    lemma_assoc_value(texts(self.names@), self.ids@, i as int);
                }
                let n = self.names[i].clone();
                assert(n@ == texts(self.names@)[i as int]);
                return Some(n);
            }
            i = i + 1;
        }
        assert(!has_id(self@, id)) by {
            if has_id(self@, id) {
                let k = choose|k: Seq<char>| self@.contains_key(k) && self@[k] == id;
                assert(texts(self.names@).contains(k));
                let j = choose|j: int| 0 <= j < texts(self.names@).len() && texts(self.names@)[j] == k;
                lemma_assoc_value(texts(self.names@), self.ids@, j);
            }
        }
        None
    }
}

/// Whether some name of `m` is mapped to `id`.
pub open spec fn has_id(m: Map<Seq<char>, i32>, id: i32) -> bool {
    exists|k: Seq<char>| m.contains_key(k) && m[k] == id
}

/// The keyword table: the kind of token that each keyword's text stands for.
pub struct KeywordTable {
    words: Vec<String>,
    kinds: Vec<String>,
}

impl View for KeywordTable {
    type V = Map<Seq<char>, Seq<char>>;

    closed spec fn view(&self) -> Map<Seq<char>, Seq<char>> {
        assoc(texts(self.words@), texts(self.kinds@))
    }
}

impl KeywordTable {
    #[verifier::type_invariant]
    closed spec fn inv(self) -> bool {
        &&& self.words@.len() == self.kinds@.len()
        &&& texts(self.words@).no_duplicates()
    }

    /// An empty table.
    pub fn new() -> (t: Self)
        ensures
            t@ == Map::<Seq<char>, Seq<char>>::empty(),
    {
        let t = KeywordTable { words: Vec::new(), kinds: Vec::new() };
        assert(t@ =~= Map::<Seq<char>, Seq<char>>::empty());
        t
    }

    /// Maps `word` to `kind`, replacing what `word` was mapped to before.
    pub fn insert(&mut self, word: String, kind: String)
        ensures
            final(self)@ == old(self)@.insert(word@, kind@),
    {
        let mut t = KeywordTable::new();
        std::mem::swap(self, &mut t);
        proof {
            use_type_invariant(&t);
        }
        let KeywordTable { mut words, mut kinds } = t;
        match find_key(&words, &word) {
            Some(i) => {
                proof {
                    lemma_assoc_update(texts(words@), texts(kinds@), i as int, kind@);
                }
                let ghost old_kinds = kinds@;
                kinds.set(i, kind);
                assert(texts(kinds@) =~= texts(old_kinds).update(i as int, kinds@[i as int]@));
            },
            None => {
                let ghost old_words = words@;
                let ghost old_kinds = kinds@;
                words.push(word);
                kinds.push(kind);
                assert(texts(words@).drop_last() =~= texts(old_words));
                assert(texts(kinds@).drop_last() =~= texts(old_kinds));
                assert(texts(words@).no_duplicates()) by {
                    assert forall|a: int, b: int|
                        0 <= a < b < texts(words@).len() implies texts(words@)[a]
                        != texts(words@)[b] by {
                        assert(texts(old_words)[a] == texts(words@)[a]);
                        if b < old_words.len() {
                            assert(texts(old_words)[b] == texts(words@)[b]);
                        }
                    }
                }
            },
        }
        *self = KeywordTable { words, kinds };
    }

    /// The kind that `word` stands for, if it is a keyword of the table.
    pub fn get(&self, word: &String) -> (r: Option<String>)
        ensures
            match r {
                Some(k) => self@.contains_key(word@) && k@ == self@[word@],
                None => !self@.contains_key(word@),
            },
    {
        proof {
            use_type_invariant(self);
            lemma_assoc_dom(texts(self.words@), texts(self.kinds@));
        }
        match find_key(&self.words, word) {
            Some(i) => {
                proof {
                    lemma_assoc_value(texts(self.words@), texts(self.kinds@), i as int);
                }
                Some(self.kinds[i].clone())
            },
            None => None,
        }
    }
}

} // verus!
