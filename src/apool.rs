use vstd::prelude::*;

verus! {

/// One interned attribute: its code and its text, written `key:value`.
pub struct AttribPair {
    pub attrib_num: u32,
    pub attrib_str: String,
}

/// An in-memory attribute pool: an append-only table from codes to attribute
/// texts. No two codes carry the same text.
pub struct Mem {
    entries: Vec<AttribPair>,
    next: u32,
}

impl Mem {
    /// The pool as a map from code to attribute text.
    pub closed spec fn view(&self) -> Map<u32, Seq<char>> {
        Map::new(
            |c: u32| exists|i: int| 0 <= i < self.entries@.len() && self.entries@[i].attrib_num == c,
            |c: u32|
                self.entries@[choose|i: int|
                    0 <= i < self.entries@.len() && self.entries@[i].attrib_num == c].attrib_str@,
        )
    }

    /// The code that the next new attribute receives.
    pub closed spec fn next_code(&self) -> u32 {
        self.next
    }

    /// Codes are unique, texts are unique, and every code lies below `next`.
    pub closed spec fn wf(&self) -> bool {
        &&& forall|i: int, j: int|
            0 <= i < j < self.entries@.len() ==> self.entries@[i].attrib_num
                != self.entries@[j].attrib_num && self.entries@[i].attrib_str@
                != self.entries@[j].attrib_str@
        &&& forall|i: int| 0 <= i < self.entries@.len() ==> self.entries@[i].attrib_num < self.next
    }

    proof fn lemma_entry(&self, i: int)
        requires
            self.wf(),
            0 <= i < self.entries@.len(),
        ensures
            self.view().contains_key(self.entries@[i].attrib_num),
            self.view()[self.entries@[i].attrib_num] == self.entries@[i].attrib_str@,
    {
        let c = self.entries@[i].attrib_num;
        assert(self.view().contains_key(c));
        let j = choose|j: int| 0 <= j < self.entries@.len() && self.entries@[j].attrib_num == c;
        assert(i == j);
    }

    /// An empty pool with room for `capacity` attributes.
    pub fn new(capacity: usize) -> (r: Mem)
        ensures
            r.wf(),
            r.view() == Map::<u32, Seq<char>>::empty(),
            r.next_code() == 0,
    {
        let r = Mem { entries: Vec::with_capacity(capacity), next: 0 };
        assert(r.view() =~= Map::<u32, Seq<char>>::empty());
        r
    }

    /// Position of the entry with the given code, if any.
    fn find_code(&self, code: u32) -> (r: Option<usize>)
        requires
            self.wf(),
        ensures
            match r {
                Some(i) => i < self.entries@.len() && self.entries@[i as int].attrib_num == code,
                None => !self.view().contains_key(code),
            },
    {
        let mut i: usize = 0;
        while i < self.entries.len()
            invariant
                i <= self.entries@.len(),
                forall|k: int| 0 <= k < i ==> self.entries@[k].attrib_num != code,
            decreases self.entries@.len() - i,
        {
            if self.entries[i].attrib_num == code {
                return Some(i);
            }
            i = i + 1;
        }
        None
    }

    /// Position of the entry with the given text, if any.
    fn find_text(&self, text: &String) -> (r: Option<usize>)
        requires
            self.wf(),
        ensures
            match r {
                Some(i) => i < self.entries@.len() && self.entries@[i as int].attrib_str@ == text@,
                None => forall|k: int|
                    0 <= k < self.entries@.len() ==> self.entries@[k].attrib_str@ != text@,
            },
    {
        let mut i: usize = 0;
        while i < self.entries.len()
            invariant
                i <= self.entries@.len(),
                forall|k: int| 0 <= k < i ==> self.entries@[k].attrib_str@ != text@,
            decreases self.entries@.len() - i,
        {
            if self.entries[i].attrib_str == *text {
                return Some(i);
            }
            i = i + 1;
        }
        None
    }

    /// Whether `code` is known to the pool.
    pub fn contains(&self, code: u32) -> (r: bool)
        requires
            self.wf(),
        ensures
            r == self.view().contains_key(code),
    {
        match self.find_code(code) {
            Some(i) => {
                proof { self.lemma_entry(i as int); }
                true
            },
            None => false,
        }
    }

    /// The attribute text of `code`, or `None` when the pool does not know it.
    pub fn lookup(&self, code: u32) -> (r: Option<&String>)
        requires
            self.wf(),
        ensures
            match r {
                Some(s) => self.view().contains_key(code) && s@ == self.view()[code],
                None => !self.view().contains_key(code),
            },
    {
        match self.find_code(code) {
            Some(i) => {
                proof { self.lemma_entry(i as int); }
                Some(&self.entries[i].attrib_str)
            },
            None => None,
        }
    }

    /// The code of `text`, interning it under the next free code when it is new.
    /// Codes already handed out keep their texts, and a text that is already
    /// present keeps its code.
    pub fn get_or_insert(&mut self, text: String) -> (r: u32)
        requires
            old(self).wf(),
            old(self).next_code() < u32::MAX,
        ensures
            final(self).wf(),
            final(self).view().contains_key(r),
            final(self).view()[r] == text@,
            old(self).view().submap_of(final(self).view()),
            forall|c: u32|
                old(self).view().contains_key(c) && old(self).view()[c] == text@ ==> r == c
                    && final(self).view() == old(self).view() && final(self).next_code()
                    == old(self).next_code(),
            !old(self).view().values().contains(text@) ==> r == old(self).next_code()
                && final(self).view() == old(self).view().insert(r, text@) && final(self).next_code()
                == r + 1,
    {
        match self.find_text(&text) {
            Some(i) => {
                proof {
                    self.lemma_entry(i as int);
                    assert forall|c: u32|
                        old(self).view().contains_key(c) && old(self).view()[c] == text@ implies c
                        == self.entries@[i as int].attrib_num by {
                        let j = choose|j: int|
                            0 <= j < self.entries@.len() && self.entries@[j].attrib_num == c;
                        assert(i == j || self.entries@[j].attrib_str@ != self.entries@[i as int].attrib_str@);
                    }
                }
                self.entries[i].attrib_num
            },
            None => {
                let code = self.next;
                let ghost pre = *self;
                proof {
                    assert forall|c: u32| pre.view().contains_key(c) implies pre.view()[c] != text@ by {
                        let j = choose|j: int|
                            0 <= j < pre.entries@.len() && pre.entries@[j].attrib_num == c;
                    }
                    assert(!pre.view().contains_key(code));
                }
                self.entries.push(AttribPair { attrib_num: code, attrib_str: text });
                self.next = code + 1;
                proof {
                    let n = self.entries@.len() - 1;
                    assert(self.wf());
                    self.lemma_entry(n);
                    assert forall|c: u32| pre.view().contains_key(c) implies self.view()[c] == pre.view()[c] by {
                        let j = choose|j: int|
                            0 <= j < pre.entries@.len() && pre.entries@[j].attrib_num == c;
                        assert(self.entries@[j] == pre.entries@[j]);
                        self.lemma_entry(j);
                        pre.lemma_entry(j);
                    }
                    assert forall|c: u32| #[trigger] self.view().dom().contains(c) <==> pre.view().insert(code, text@).dom().contains(c) by {
                        if c != code {
                            if self.view().dom().contains(c) {
                                let j = choose|j: int|
                                    0 <= j < self.entries@.len() && self.entries@[j].attrib_num == c;
                                assert(pre.entries@[j].attrib_num == c);
                            }
                            if pre.view().contains_key(c) {
                                let j = choose|j: int|
                                    0 <= j < pre.entries@.len() && pre.entries@[j].attrib_num == c;
                                assert(self.entries@[j] == pre.entries@[j]);
                                self.lemma_entry(j);
                            }
                        }
                    }
                    assert(self.view() =~= pre.view().insert(code, text@));
                }
                code
            },
        }
    }

    /// Records `pair` under its own code. Fails, leaving the pool unchanged,
    /// when the code already carries another text or the text another code.
    pub fn set(&mut self, pair: AttribPair) -> (r: bool)
        requires
            old(self).wf(),
            pair.attrib_num < u32::MAX,
        ensures
            final(self).wf(),
            r == ((old(self).view().contains_key(pair.attrib_num) ==> old(self).view()[pair.attrib_num]
                == pair.attrib_str@) && forall|c: u32|
                old(self).view().contains_key(c) && old(self).view()[c] == pair.attrib_str@ ==> c
                    == pair.attrib_num),
            r ==> final(self).view() == old(self).view().insert(pair.attrib_num, pair.attrib_str@),
            !r ==> final(self).view() == old(self).view(),
            final(self).next_code() >= old(self).next_code(),
            final(self).next_code() > pair.attrib_num || !r,
    {
        let ghost pre = *self;
        let ghost n = pair.attrib_num;
        match self.find_code(pair.attrib_num) {
            Some(i) => {
                proof {
                    self.lemma_entry(i as int);
                    assert forall|c: u32|
                        pre.view().contains_key(c) && pre.view()[c] == pair.attrib_str@
                            && pre.entries@[i as int].attrib_str@ == pair.attrib_str@ implies c == n by {
                        let j = choose|j: int|
                            0 <= j < pre.entries@.len() && pre.entries@[j].attrib_num == c;
                        assert(i == j || pre.entries@[j].attrib_str@ != pre.entries@[i as int].attrib_str@);
                    }
                    assert(pre.view().insert(n, pair.attrib_str@) =~= pre.view() || pre.view()[n] != pair.attrib_str@);
                }
                self.entries[i].attrib_str == pair.attrib_str
            },
            None => match self.find_text(&pair.attrib_str) {
                Some(i) => {
                    proof { self.lemma_entry(i as int); }
                    false
                },
                None => {
                    proof {
                        assert forall|c: u32| pre.view().contains_key(c) implies pre.view()[c] != pair.attrib_str@ by {
                            let j = choose|j: int|
                                0 <= j < pre.entries@.len() && pre.entries@[j].attrib_num == c;
                        }
                    }
                    if self.next <= pair.attrib_num {
                        self.next = pair.attrib_num + 1;
                    }
                    self.entries.push(pair);
                    proof {
                        let k = self.entries@.len() - 1;
                        assert(self.wf());
                        self.lemma_entry(k);
                        assert forall|c: u32| #[trigger] self.view().dom().contains(c) <==> pre.view().insert(n, self.entries@[k].attrib_str@).dom().contains(c) by {
                            if c != n {
                                if self.view().dom().contains(c) {
                                    let j = choose|j: int|
                                        0 <= j < self.entries@.len() && self.entries@[j].attrib_num == c;
                                    assert(pre.entries@[j].attrib_num == c);
                                }
                                if pre.view().contains_key(c) {
                                    let j = choose|j: int|
                                        0 <= j < pre.entries@.len() && pre.entries@[j].attrib_num == c;
                                    assert(self.entries@[j] == pre.entries@[j]);
                                    self.lemma_entry(j);
                                }
                            }
                        }
                        assert forall|c: u32| pre.view().contains_key(c) implies self.view()[c] == pre.view()[c] by {
                            let j = choose|j: int|
                                0 <= j < pre.entries@.len() && pre.entries@[j].attrib_num == c;
                            assert(self.entries@[j] == pre.entries@[j]);
                            self.lemma_entry(j);
                            pre.lemma_entry(j);
                        }
                        assert(self.view() =~= pre.view().insert(n, self.entries@[k].attrib_str@));
                    }
                    true
                },
            },
        }
    }
}

} // verus!
