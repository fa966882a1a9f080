//! An ordered set of string keys. The selection a session returns, and the
//! source paths a registry remembers, are sets of keys; keeping them
//! strictly sorted makes iteration order — and everything derived from it —
//! deterministic.

use vstd::prelude::*;

verus! {

use crate::text::{
    lex_lt,
    lemma_lex_lt_connected,
    lemma_lex_lt_transitive,
    lemma_lex_lt_irreflexive,
    str_lex_lt,
};

/// A set of string keys, stored strictly ascending in `lex_lt` order.
pub struct KeySet {
    keys: Vec<String>,
}

impl View for KeySet {
    type V = Set<Seq<char>>;

    open spec fn view(&self) -> Set<Seq<char>> {
        self.key_seq().to_set()
    }
}

impl KeySet {
    /// The keys as character sequences, in storage (ascending) order.
    pub closed spec fn key_seq(&self) -> Seq<Seq<char>> {
        self.keys@.map_values(|k: String| k@)
    }

    /// Strictly ascending, hence free of duplicates.
    pub open spec fn wf(&self) -> bool {
        forall|i: int, j: int|
            0 <= i < j < self.key_seq().len() ==> lex_lt(
                #[trigger] self.key_seq()[i],
                #[trigger] self.key_seq()[j],
            )
    }

    pub fn new() -> (s: Self)
        ensures
            s.wf(),
            s@ == Set::<Seq<char>>::empty(),
            s.key_seq() == Seq::<Seq<char>>::empty(),
    {
        let s = KeySet { keys: Vec::new() };
        proof {
            assert(s.key_seq() =~= Seq::<Seq<char>>::empty());
            assert(s@ =~= Set::<Seq<char>>::empty());
        }
        s
    }

    pub fn len(&self) -> (n: usize)
        ensures
            n == self.key_seq().len(),
    {
        self.keys.len()
    }

    pub fn is_empty(&self) -> (r: bool)
        ensures
            r == (self.key_seq().len() == 0),
            r == (self@ == Set::<Seq<char>>::empty()),
    {
        proof {
            if self.key_seq().len() == 0 {
                assert(self@ =~= Set::<Seq<char>>::empty());
            } else {
                assert(self@.contains(self.key_seq()[0]));
            }
        }
        self.keys.len() == 0
    }

    /// The key at a storage position, for iteration from outside.
    pub fn key_at(&self, i: usize) -> (k: &String)
        requires
            i < self.key_seq().len(),
        ensures
            k@ == self.key_seq()[i as int],
    {
        &self.keys[i]
    }

    pub fn contains(&self, k: &String) -> (r: bool)
        ensures
            r == self@.contains(k@),
    {
        let mut i: usize = 0;
        while i < self.keys.len()
            invariant
                i <= self.keys@.len(),
                forall|j: int| 0 <= j < i ==> self.key_seq()[j] != k@,
            decreases self.keys@.len() - i,
        {
            if self.keys[i] == *k {
                proof {
                    assert(self.key_seq()[i as int] == k@);
                    assert(self.key_seq().contains(k@));
                }
                return true;
            }
            i = i + 1;
        }
        proof {
            if self.key_seq().contains(k@) {
                let j = choose|j: int|
                    0 <= j < self.key_seq().len() && self.key_seq()[j] == k@;
                assert(self.key_seq()[j] != k@);
            }
        }
        false
    }

    pub fn insert(&mut self, k: String)
        requires
            old(self).wf(),
        ensures
            final(self).wf(),
            final(self)@ == old(self)@.insert(k@),
    {
        let mut pos: usize = 0;
        while pos < self.keys.len() && str_lex_lt(self.keys[pos].as_str(), k.as_str())
            invariant
                old(self).wf(),
                self == old(self),
                pos <= self.keys@.len(),
                forall|j: int| 0 <= j < pos ==> lex_lt(#[trigger] self.key_seq()[j], k@),
            decreases self.keys@.len() - pos,
        {
            proof {
                assert(self.key_seq()[pos as int] == self.keys@[pos as int]@);
            }
            pos = pos + 1;
        }
        if pos < self.keys.len() && self.keys[pos] == k {
            proof {
                assert(self.key_seq()[pos as int] == k@);
                assert(self.key_seq().contains(k@));
                assert(final(self)@ =~= old(self)@.insert(k@));
            }
            return ;
        }
        proof {
            if pos < self.keys@.len() {
                assert(self.key_seq()[pos as int] == self.keys@[pos as int]@);
                lemma_lex_lt_connected(self.key_seq()[pos as int], k@);
                assert(lex_lt(k@, self.key_seq()[pos as int]));
            }
        }
        let ghost oldkeys = self.key_seq();
        self.keys.insert(pos, k);
        proof {
            let news = self.key_seq();
            assert(news =~= oldkeys.insert(pos as int, k@)) by {
                assert forall|t: int| 0 <= t < news.len() implies news[t] == oldkeys.insert(
                    pos as int,
                    k@,
                )[t] by {
                    assert(news[t] == self.keys@[t]@);
                    oldkeys.insert_ensures(pos as int, k@);
                }
            }
            oldkeys.insert_ensures(pos as int, k@);
            assert forall|i: int, j: int| 0 <= i < j < news.len() implies lex_lt(
                #[trigger] news[i],
                #[trigger] news[j],
            ) by {
                if j < pos {
                    assert(lex_lt(oldkeys[i], oldkeys[j]));
                } else if i < pos && j == pos {
                    assert(lex_lt(oldkeys[i], k@));
                } else if i < pos && j > pos {
                    assert(lex_lt(oldkeys[i], oldkeys[j - 1]));
                } else if i == pos && j > pos {
                    assert(lex_lt(k@, oldkeys[pos as int]));
                    if pos < j - 1 {
                        assert(lex_lt(oldkeys[pos as int], oldkeys[j - 1]));
                        lemma_lex_lt_transitive(k@, oldkeys[pos as int], oldkeys[j - 1]);
                    }
                } else {
                    assert(lex_lt(oldkeys[i - 1], oldkeys[j - 1]));
                }
            }
            assert forall|x: Seq<char>| final(self)@.contains(x) implies old(self)@.insert(
                k@,
            ).contains(x) by {
                let t = choose|t: int| 0 <= t < news.len() && news[t] == x;
                if t != pos {
                    if t < pos {
                        assert(oldkeys[t] == x);
                    } else {
                        assert(oldkeys[t - 1] == x);
                    }
                    assert(oldkeys.contains(x));
                }
            }
            assert forall|x: Seq<char>| old(self)@.insert(k@).contains(x) implies final(self)@.contains(x) by {
                if x == k@ {
                    assert(news[pos as int] == x);
                } else {
                    let t = choose|t: int| 0 <= t < oldkeys.len() && oldkeys[t] == x;
                    if t < pos {
                        assert(news[t] == x);
                    } else {
                        assert(news[t + 1] == x);
                    }
                }
            }
            assert(final(self)@ =~= old(self)@.insert(k@));
        }
    }

    pub fn remove(&mut self, k: &String)
        requires
            old(self).wf(),
        ensures
            final(self).wf(),
            final(self)@ == old(self)@.remove(k@),
    {
        let mut i: usize = 0;
        while i < self.keys.len()
            invariant
                old(self).wf(),
                self == old(self),
                i <= self.keys@.len(),
                forall|j: int| 0 <= j < i ==> self.key_seq()[j] != k@,
            decreases self.keys@.len() - i,
        {
            if self.keys[i] == *k {
                proof {
                    assert(self.key_seq()[i as int] == k@);
                }
                let ghost oldkeys = self.key_seq();
                proof {
                    assert(oldkeys == old(self).key_seq());
                    assert forall|x: int, y: int| 0 <= x < y < oldkeys.len() implies lex_lt(
                        #[trigger] oldkeys[x],
                        #[trigger] oldkeys[y],
                    ) by {
                        assert(lex_lt(old(self).key_seq()[x], old(self).key_seq()[y]));
                    }
                }
                self.keys.remove(i);
                proof {
                    let news = self.key_seq();
                    assert(news =~= oldkeys.remove(i as int)) by {
                        oldkeys.remove_ensures(i as int);
                        assert forall|t: int| 0 <= t < news.len() implies news[t]
                            == oldkeys.remove(i as int)[t] by {
                            assert(news[t] == self.keys@[t]@);
                        }
                    }
                    oldkeys.remove_ensures(i as int);
                    assert forall|x: int, y: int| 0 <= x < y < news.len() implies lex_lt(
                        #[trigger] news[x],
                        #[trigger] news[y],
                    ) by {
                        let ox: int = if x < i {
                            x
                        } else {
                            x + 1
                        };
                        let oy: int = if y < i {
                            y
                        } else {
                            y + 1
                        };
                        assert(lex_lt(oldkeys[ox], oldkeys[oy]));
                    }
                    assert forall|x: Seq<char>| final(self)@.contains(x) implies old(self)@.remove(k@).contains(x) by {
                        let t = choose|t: int| 0 <= t < news.len() && news[t] == x;
                        let ot: int = if t < i {
                            t
                        } else {
                            t + 1
                        };
                        assert(oldkeys[ot] == x);
                        assert(oldkeys.contains(x));
                        if x == k@ {
                            let a: int = if ot < i {
                                ot
                            } else {
                                i as int
                            };
                            let b: int = if ot < i {
                                i as int
                            } else {
                                ot
                            };
                            assert(lex_lt(oldkeys[a], oldkeys[b]));
                            assert(oldkeys[a] == k@ && oldkeys[b] == k@);
                            lemma_lex_lt_irreflexive(k@);
                        }
                    }
                    assert forall|x: Seq<char>| old(self)@.remove(k@).contains(x) implies final(self)@.contains(x) by {
                        let t = choose|t: int| 0 <= t < oldkeys.len() && oldkeys[t] == x;
                        if t < i {
                            assert(news[t] == x);
                        } else if t > i {
                            assert(news[t - 1] == x);
                        }
                    }
                    assert(final(self)@ =~= old(self)@.remove(k@));
                }
                return ;
            }
            i = i + 1;
        }
        proof {
            if self.key_seq().contains(k@) {
                let j = choose|j: int|
                    0 <= j < self.key_seq().len() && self.key_seq()[j] == k@;
                assert(self.key_seq()[j] != k@);
            }
            assert(final(self)@ =~= old(self)@.remove(k@));
        }
    }

    /// Hand the keys out, ascending.
    pub fn into_keys(self) -> (r: Vec<String>)
        ensures
            r@.map_values(|k: String| k@) == self.key_seq(),
    {
        self.keys
    }
}

} // verus!
