//! The command registry: user commands keyed by a stable identifier, the
//! run history, and the decisions around loading commands from sources.
//! Reading and writing the registry file, prompting, and spawning scripts
//! happen outside the crate; what lives here is every rule those actions
//! depend on.

use vstd::prelude::*;

verus! {

use vstd::utf8::encode_utf8;
use crate::text::{
    lex_lt,
    lemma_lex_lt_connected,
    lemma_lex_lt_transitive,
    lemma_lex_lt_irreflexive,
    str_lex_lt,
};
use crate::keyset::KeySet;

/// The stable identifier of a command.
pub type CommandId = String;

/// One runnable command, as a source file declares it.
#[derive(Debug)]
pub struct UserCommand {
    pub name: String,
    pub script: String,
    pub args: Vec<String>,
    pub only_on: Option<Platform>,
    pub shell: Shell,
    pub only_in_dir: Option<String>,
    pub risky: bool,
}

/// The shell a script runs under.
#[derive(Debug, Clone, Copy, PartialEq, Eq, Structural)]
pub enum Shell {
    Sh,
    Cmd,
    Powershell,
}

impl Default for Shell {
    /// The shell used when a script names none; `sh` on this target.
    fn default() -> (r: Self)
        ensures
            r == Shell::Sh,
    {
        Shell::Sh
    }
}

/// A platform a script may be restricted to.
#[derive(Debug, Clone, Copy, PartialEq, Eq, Structural)]
pub enum Platform {
    Linux,
    Windows,
}

/// The built-in actions a chooser can offer besides user commands.
#[derive(Debug, Clone, Copy)]
pub enum SystemCommand {
    RefreshFromSources,
    AddSource,
    RemoveSource,
}

/// A registered command; today every one is a user command.
#[derive(Debug)]
pub enum Command {
    UserCommand(UserCommand),
}

impl Command {
    pub open spec fn name_spec(&self) -> Seq<char> {
        match self {
            Command::UserCommand(c) => c.name@,
        }
    }

    /// The display name of a command.
    pub fn name(&self) -> (r: &str)
        ensures
            r@ == self.name_spec(),
    {
        match self {
            Command::UserCommand(c) => c.name.as_str(),
        }
    }
}

/// The file a source declares its commands in.
#[derive(Debug)]
pub struct CommandsSource {
    pub entries: Vec<UserCommand>,
}

impl Default for CommandsSource {
    fn default() -> (r: Self)
        ensures
            r.entries@.len() == 0,
    {
        CommandsSource { entries: Vec::new() }
    }
}

// ----- an ordered map of commands -----

/// A map from command identifiers to values, kept strictly sorted by key
/// so that iteration order is deterministic (ascending by identifier).
pub struct CommandMap<V> {
    pairs: Vec<(String, V)>,
}

impl<V> View for CommandMap<V> {
    type V = Map<Seq<char>, V>;

    open spec fn view(&self) -> Map<Seq<char>, V> {
        Map::new(
            |k: Seq<char>| self.key_seq().contains(k),
            |k: Seq<char>| self.val_seq()[self.key_seq().index_of(k)],
        )
    }
}

impl<V> CommandMap<V> {
    /// The keys in storage (ascending) order.
    pub closed spec fn key_seq(&self) -> Seq<Seq<char>> {
        self.pairs@.map_values(|p: (String, V)| p.0@)
    }

    /// The values in storage order.
    pub closed spec fn val_seq(&self) -> Seq<V> {
        self.pairs@.map_values(|p: (String, V)| p.1)
    }

    /// Strictly ascending keys.
    pub open spec fn wf(&self) -> bool {
        forall|i: int, j: int|
            0 <= i < j < self.key_seq().len() ==> lex_lt(
                #[trigger] self.key_seq()[i],
                #[trigger] self.key_seq()[j],
            )
    }

    /// Keys and values come in equal number.
    pub proof fn lemma_lens(&self)
        ensures
            self.key_seq().len() == self.val_seq().len(),
    {
    }

    proof fn lemma_key_unique(&self, i: int, j: int)
        requires
            self.wf(),
            0 <= i < self.key_seq().len(),
            0 <= j < self.key_seq().len(),
            self.key_seq()[i] == self.key_seq()[j],
        ensures
            i == j,
    {
        if i != j {
            let a: int = if i < j {
                i
            } else {
                j
            };
            let b: int = if i < j {
                j
            } else {
                i
            };
            assert(lex_lt(self.key_seq()[a], self.key_seq()[b]));
            lemma_lex_lt_irreflexive(self.key_seq()[i]);
        }
    }

    /// The value stored at position `i` is the map's value for its key.
    pub proof fn lemma_val_at(&self, i: int)
        requires
            self.wf(),
            0 <= i < self.key_seq().len(),
        ensures
            self@.contains_key(self.key_seq()[i]),
            self@[self.key_seq()[i]] == self.val_seq()[i],
    {
        let k = self.key_seq()[i];
        assert(self.key_seq().contains(k));
        let j = self.key_seq().index_of(k);
        assert(0 <= j < self.key_seq().len() && self.key_seq()[j] == k);
        self.lemma_key_unique(i, j);
    }

    pub fn new() -> (m: Self)
        ensures
            m.wf(),
            m@ == Map::<Seq<char>, V>::empty(),
            m.key_seq() == Seq::<Seq<char>>::empty(),
    {
        let m = CommandMap { pairs: Vec::new() };
        proof {
            assert(m.key_seq() =~= Seq::<Seq<char>>::empty());
            assert(m@ =~= Map::<Seq<char>, V>::empty());
        }
        m
    }

    pub fn len(&self) -> (n: usize)
        ensures
            n == self.key_seq().len(),
    {
        self.pairs.len()
    }

    /// The key at a storage position.
    pub fn key_at(&self, i: usize) -> (k: &String)
        requires
            i < self.key_seq().len(),
        ensures
            k@ == self.key_seq()[i as int],
    {
        &self.pairs[i].0
    }

    /// The value at a storage position.
    pub fn val_at(&self, i: usize) -> (v: &V)
        requires
            self.wf(),
            i < self.key_seq().len(),
        ensures
            *v == self.val_seq()[i as int],
            self@.contains_key(self.key_seq()[i as int]),
            *v == self@[self.key_seq()[i as int]],
    {
        proof {
            self.lemma_val_at(i as int);
        }
        &self.pairs[i].1
    }

    /// Look a command up by its identifier.
    pub fn get(&self, id: &String) -> (r: Option<&V>)
        requires
            self.wf(),
        ensures
            r is Some <==> self@.contains_key(id@),
            r matches Some(v) ==> *v == self@[id@],
    {
        let mut i: usize = 0;
        while i < self.pairs.len()
            invariant
                self.wf(),
                i <= self.pairs@.len(),
                forall|j: int| 0 <= j < i ==> self.key_seq()[j] != id@,
            decreases self.pairs@.len() - i,
        {
            if self.pairs[i].0 == *id {
                proof {
                    assert(self.key_seq()[i as int] == id@);
                    assert(self.key_seq().contains(id@));
                    self.lemma_val_at(i as int);
                }
                return Some(&self.pairs[i].1);
            }
            i = i + 1;
        }
        proof {
            if self.key_seq().contains(id@) {
                let j = choose|j: int|
                    0 <= j < self.key_seq().len() && self.key_seq()[j] == id@;
                assert(self.key_seq()[j] != id@);
            }
        }
        None
    }

    /// Insert a command under its identifier; an existing entry with the
    /// same identifier is replaced.
    pub fn insert(&mut self, id: String, v: V)
        requires
            old(self).wf(),
        ensures
            final(self).wf(),
            final(self)@ == old(self)@.insert(id@, v),
    {
        let mut pos: usize = 0;
        while pos < self.pairs.len() && str_lex_lt(self.pairs[pos].0.as_str(), id.as_str())
            invariant
                old(self).wf(),
                self == old(self),
                pos <= self.pairs@.len(),
                forall|j: int| 0 <= j < pos ==> lex_lt(#[trigger] self.key_seq()[j], id@),
            decreases self.pairs@.len() - pos,
        {
            proof {
                assert(self.key_seq()[pos as int] == self.pairs@[pos as int].0@);
            }
            pos = pos + 1;
        }
        let replacing = pos < self.pairs.len() && self.pairs[pos].0 == *(&id);
        proof {
            if pos < self.pairs@.len() && !replacing {
                assert(self.key_seq()[pos as int] == self.pairs@[pos as int].0@);
                lemma_lex_lt_connected(self.key_seq()[pos as int], id@);
                assert(lex_lt(id@, self.key_seq()[pos as int]));
            }
        }
        if replacing {
            self.pairs.remove(pos);
            proof {
                assert(old(self).key_seq()[pos as int] == id@);
                assert forall|j: int|
                    0 <= j < self.key_seq().len() && j != pos implies #[trigger] self.key_seq()[j]
                    != id@ by {
                    let oj: int = if j < pos {
                        j
                    } else {
                        j + 1
                    };
                    assert(self.key_seq()[j] == old(self).key_seq()[oj]);
                    if old(self).key_seq()[oj] == id@ {
                        old(self).lemma_key_unique(oj, pos as int);
                    }
                }
            }
        }
        let ghost mid = *self;
        proof {
            assert forall|i: int, j: int| 0 <= i < j < mid.key_seq().len() implies lex_lt(
                #[trigger] mid.key_seq()[i],
                #[trigger] mid.key_seq()[j],
            ) by {
                if replacing {
                    let oi: int = if i < pos {
                        i
                    } else {
                        i + 1
                    };
                    let oj: int = if j < pos {
                        j
                    } else {
                        j + 1
                    };
                    assert(mid.key_seq()[i] == old(self).key_seq()[oi]);
                    assert(mid.key_seq()[j] == old(self).key_seq()[oj]);
                    assert(lex_lt(old(self).key_seq()[oi], old(self).key_seq()[oj]));
                } else {
                    assert(lex_lt(old(self).key_seq()[i], old(self).key_seq()[j]));
                }
            }
            assert forall|j: int| 0 <= j < pos implies lex_lt(
                #[trigger] mid.key_seq()[j],
                id@,
            ) by {
                assert(mid.key_seq()[j] == old(self).key_seq()[j]);
            }
            if pos < mid.key_seq().len() {
                if replacing {
                    assert(mid.key_seq()[pos as int] == old(self).key_seq()[pos + 1]);
                    assert(lex_lt(old(self).key_seq()[pos as int], old(self).key_seq()[pos + 1]));
                    assert(lex_lt(id@, mid.key_seq()[pos as int]));
                } else {
                    assert(lex_lt(id@, mid.key_seq()[pos as int]));
                }
            }
        }
        let ghost oldkeys = mid.key_seq();
        let ghost gid = id@;
        let ghost gv = v;
        self.pairs.insert(pos, (id, v));
        proof {
            let news = self.key_seq();
            assert(self.pairs@[pos as int].0@ == gid);
            assert(self.pairs@[pos as int].1 == gv);
            assert(news =~= oldkeys.insert(pos as int, gid)) by {
                oldkeys.insert_ensures(pos as int, gid);
                assert forall|t: int| 0 <= t < news.len() implies news[t] == oldkeys.insert(
                    pos as int,
                    gid,
                )[t] by {
                    assert(news[t] == self.pairs@[t].0@);
                }
            }
            oldkeys.insert_ensures(pos as int, gid);
            assert forall|i: int, j: int| 0 <= i < j < news.len() implies lex_lt(
                #[trigger] news[i],
                #[trigger] news[j],
            ) by {
                if j < pos {
                    assert(lex_lt(oldkeys[i], oldkeys[j]));
                } else if i < pos && j == pos {
                    assert(lex_lt(oldkeys[i], gid));
                } else if i < pos && j > pos {
                    assert(lex_lt(oldkeys[i], oldkeys[j - 1]));
                } else if i == pos && j > pos {
                    assert(lex_lt(gid, oldkeys[pos as int]));
                    if pos < j - 1 {
                        assert(lex_lt(oldkeys[pos as int], oldkeys[j - 1]));
                        lemma_lex_lt_transitive(gid, oldkeys[pos as int], oldkeys[j - 1]);
                    }
                } else {
                    assert(lex_lt(oldkeys[i - 1], oldkeys[j - 1]));
                }
            }
            assert(final(self).wf());
            assert forall|t: int| 0 <= t < pos implies #[trigger] self.pairs@[t]
                == mid.pairs@[t] by {
                mid.pairs@.insert_ensures(pos as int, self.pairs@[pos as int]);
            }
            assert forall|t: int| pos < t < self.pairs@.len() implies #[trigger] self.pairs@[t]
                == mid.pairs@[t - 1] by {
                mid.pairs@.insert_ensures(pos as int, self.pairs@[pos as int]);
            }
            self.lemma_map_after_insert(mid, pos as int, gid, gv);
            assert(mid@ =~= if replacing {
                old(self)@.remove(gid)
            } else {
                old(self)@
            }) by {
                if replacing {
                    mid.lemma_map_after_remove(old(self), pos as int, gid);
                }
            }
            assert(final(self)@ =~= old(self)@.insert(gid, gv));
        }
    }

    /// After removing position `pos` (whose key is `k`, unique), the map
    /// view is the old view without `k`.
    proof fn lemma_map_after_remove(&self, older: &Self, pos: int, k: Seq<char>)
        requires
            older.wf(),
            0 <= pos < older.key_seq().len(),
            older.key_seq()[pos] == k,
            self.pairs@ == older.pairs@.remove(pos),
        ensures
            self@ == older@.remove(k),
    {
        older.pairs@.remove_ensures(pos);
        let news = self.key_seq();
        let olds = older.key_seq();
        assert(news =~= olds.remove(pos)) by {
            olds.remove_ensures(pos);
            assert forall|t: int| 0 <= t < news.len() implies news[t] == olds.remove(pos)[t] by {
                assert(news[t] == self.pairs@[t].0@);
                assert(olds[if t < pos {
                    t
                } else {
                    t + 1
                }] == older.pairs@[if t < pos {
                    t
                } else {
                    t + 1
                }].0@);
            }
        }
        olds.remove_ensures(pos);
        assert forall|x: Seq<char>| #[trigger] self@.contains_key(x) implies older@.remove(
            k,
        ).contains_key(x) by {
            let t = choose|t: int| 0 <= t < news.len() && news[t] == x;
            let ot: int = if t < pos {
                t
            } else {
                t + 1
            };
            assert(olds[ot] == x);
            assert(olds.contains(x));
            if x == k {
                older.lemma_key_unique(ot, pos);
            }
        }
        assert forall|x: Seq<char>| older@.remove(k).contains_key(x) implies #[trigger] self@.contains_key(x) by {
            let t = choose|t: int| 0 <= t < olds.len() && olds[t] == x;
            if t < pos {
                assert(news[t] == x);
            } else if t > pos {
                assert(news[t - 1] == x);
            } else {
                older.lemma_key_unique(t, pos);
            }
            assert(news.contains(x));
        }
        self.lemma_wf_after_remove(older, pos);
        assert forall|x: Seq<char>| #[trigger] self@.contains_key(x) implies self@[x] == older@.remove(
            k,
        )[x] by {
            let t = self.key_seq().index_of(x);
            assert(0 <= t < news.len() && news[t] == x);
            let ot: int = if t < pos {
                t
            } else {
                t + 1
            };
            assert(olds[ot] == x);
            self.lemma_val_at(t);
            older.lemma_val_at(ot);
            assert(self.val_seq()[t] == older.val_seq()[ot]) by {
                assert(self.pairs@[t] == older.pairs@[ot]);
            }
        }
        assert(self@ =~= older@.remove(k));
    }

    /// Removing a position from a strictly sorted map leaves it strictly
    /// sorted.
    proof fn lemma_wf_after_remove(&self, older: &Self, pos: int)
        requires
            older.wf(),
            0 <= pos < older.key_seq().len(),
            self.pairs@ == older.pairs@.remove(pos),
        ensures
            self.wf(),
    {
        older.pairs@.remove_ensures(pos);
        assert forall|i: int, j: int| 0 <= i < j < self.key_seq().len() implies lex_lt(
            #[trigger] self.key_seq()[i],
            #[trigger] self.key_seq()[j],
        ) by {
            let oi: int = if i < pos {
                i
            } else {
                i + 1
            };
            let oj: int = if j < pos {
                j
            } else {
                j + 1
            };
            assert(self.key_seq()[i] == self.pairs@[i].0@);
            assert(self.key_seq()[j] == self.pairs@[j].0@);
            assert(self.pairs@[i] == older.pairs@[oi]);
            assert(self.pairs@[j] == older.pairs@[oj]);
            assert(lex_lt(older.key_seq()[oi], older.key_seq()[oj]));
        }
    }

    /// After inserting `(k, v)` at position `pos` with `k` fresh, the map
    /// view is the old view plus that binding.
    proof fn lemma_map_after_insert(&self, older: Self, pos: int, k: Seq<char>, v: V)
        requires
            older.wf(),
            self.wf(),
            0 <= pos <= older.key_seq().len(),
            self.pairs@.len() == older.pairs@.len() + 1,
            self.key_seq() == older.key_seq().insert(pos, k),
            forall|t: int| 0 <= t < pos ==> #[trigger] self.pairs@[t] == older.pairs@[t],
            forall|t: int|
                pos < t < self.pairs@.len() ==> #[trigger] self.pairs@[t] == older.pairs@[t - 1],
            self.pairs@[pos].0@ == k,
            self.pairs@[pos].1 == v,
        ensures
            self@ == older@.insert(k, v),
    {
        let news = self.key_seq();
        let olds = older.key_seq();
        olds.insert_ensures(pos, k);
        assert forall|x: Seq<char>| #[trigger] self@.contains_key(x) implies older@.insert(
            k,
            v,
        ).contains_key(x) by {
            let t = choose|t: int| 0 <= t < news.len() && news[t] == x;
            if t != pos {
                let ot: int = if t < pos {
                    t
                } else {
                    t - 1
                };
                assert(olds[ot] == x);
                assert(olds.contains(x));
            }
        }
        assert forall|x: Seq<char>| older@.insert(k, v).contains_key(x) implies #[trigger] self@.contains_key(x) by {
            if x == k {
                assert(news[pos] == x);
            } else {
                let t = choose|t: int| 0 <= t < olds.len() && olds[t] == x;
                if t < pos {
                    assert(news[t] == x);
                } else {
                    assert(news[t + 1] == x);
                }
            }
            assert(news.contains(x));
        }
        assert forall|x: Seq<char>| #[trigger] self@.contains_key(x) implies self@[x]
            == older@.insert(k, v)[x] by {
            let t = self.key_seq().index_of(x);
            assert(0 <= t < news.len() && news[t] == x);
            self.lemma_val_at(t);
            if x == k {
                self.lemma_key_unique(t, pos);
                assert(self.val_seq()[t] == v);
            } else {
                assert(t != pos);
                let ot: int = if t < pos {
                    t
                } else {
                    t - 1
                };
                assert(olds[ot] == x);
                older.lemma_val_at(ot);
                assert(self.val_seq()[t] == older.val_seq()[ot]) by {
                    assert(self.pairs@[t] == older.pairs@[ot]);
                }
            }
        }
        assert(self@ =~= older@.insert(k, v));
    }
}

// ----- the registry and the history -----

/// Everything the launcher remembers between runs: where commands come
/// from and the commands themselves.
pub struct Registry {
    pub sources: KeySet,
    pub commands: CommandMap<UserCommand>,
}

impl Default for Registry {
    fn default() -> (r: Self)
        ensures
            r.sources.wf(),
            r.sources@ == Set::<Seq<char>>::empty(),
            r.commands.wf(),
            r.commands@ == Map::<Seq<char>, UserCommand>::empty(),
    {
        Registry { sources: KeySet::new(), commands: CommandMap::new() }
    }
}

/// The ids of the commands run, oldest first; the most recent run last.
#[derive(Debug)]
pub struct History {
    pub history: Vec<CommandId>,
}

impl Default for History {
    fn default() -> (r: Self)
        ensures
            r.history@.len() == 0,
    {
        History { history: Vec::new() }
    }
}

impl History {
    /// Record a run: any earlier occurrence of the id is dropped, and the
    /// id is appended as the most recent entry.
    pub fn add_entry(&mut self, id: &CommandId)
        ensures
            final(self).history@.map_values(|s: String| s@) == old(self).history@.map_values(
                |s: String| s@,
            ).filter(|h: Seq<char>| h != id@).push(id@),
    {
        history_add(&mut self.history, id);
    }
}

/// The history maintenance shared by the launcher variants: drop earlier
/// occurrences of the id, append it as most recent.
pub fn history_add(history: &mut Vec<CommandId>, id: &CommandId)
    ensures
        final(history)@.map_values(|s: String| s@) == old(history)@.map_values(|s: String| s@)
            .filter(|h: Seq<char>| h != id@).push(id@),
{
    let ghost pred = |h: Seq<char>| h != id@;
    let ghost olds = history@.map_values(|s: String| s@);
    let mut kept: Vec<String> = Vec::new();
    let mut i: usize = 0;
    proof {
        reveal(Seq::filter);
        assert(kept@.map_values(|s: String| s@) =~= olds.take(0).filter(pred));
    }
    while i < history.len()
        invariant
            olds == history@.map_values(|s: String| s@),
            i <= history@.len(),
            kept@.map_values(|s: String| s@) == olds.take(i as int).filter(
                |h: Seq<char>| h != id@,
            ),
        decreases history@.len() - i,
    {
        let keep = !(history[i] == *id);
        proof {
            reveal(Seq::filter);
            let p = |h: Seq<char>| h != id@;
            assert(olds.take(i + 1).drop_last() =~= olds.take(i as int));
            assert(olds.take(i + 1).last() == olds[i as int]);
            assert(olds[i as int] == history@[i as int]@);
            assert(olds.take(i + 1).filter(p) == if p(olds[i as int]) {
                olds.take(i as int).filter(p).push(olds[i as int])
            } else {
                olds.take(i as int).filter(p)
            });
        }
        if keep {
            let s = history[i].clone();
            kept.push(s);
            proof {
                assert(kept@.map_values(|s: String| s@) =~= olds.take(i + 1).filter(
                    |h: Seq<char>| h != id@,
                ));
            }
        }
        i = i + 1;
    }
    proof {
        assert(olds.take(olds.len() as int) =~= olds);
    }
    kept.push(id.clone());
    *history = kept;
    proof {
        assert(final(history)@.map_values(|s: String| s@) =~= olds.filter(
            |h: Seq<char>| h != id@,
        ).push(id@));
    }
}

/// The single-file registry of the earlier launcher: history, sources and
/// commands in one structure.
pub struct CommandsRegistry {
    pub history: Vec<CommandId>,
    pub sources: KeySet,
    pub commands: CommandMap<Command>,
}

impl Default for CommandsRegistry {
    fn default() -> (r: Self)
        ensures
            r.history@.len() == 0,
            r.sources.wf(),
            r.sources@ == Set::<Seq<char>>::empty(),
            r.commands.wf(),
            r.commands@ == Map::<Seq<char>, Command>::empty(),
    {
        CommandsRegistry { history: Vec::new(), sources: KeySet::new(), commands: CommandMap::new() }
    }
}

impl CommandsRegistry {
    /// The history maintenance of running a script, performed before the
    /// script starts so that a failing run is still recorded: earlier
    /// occurrences of the id are dropped and it is appended as most recent.
    pub fn add_history_entry(&mut self, id: &CommandId)
        ensures
            final(self).history@.map_values(|s: String| s@) == old(self).history@.map_values(
                |s: String| s@,
            ).filter(|h: Seq<char>| h != id@).push(id@),
            final(self).sources == old(self).sources,
            final(self).commands == old(self).commands,
    {
        history_add(&mut self.history, id);
    }
}

// ----- stable identifiers -----

/// What SHA3-256 returns: a pure function of the input bytes.
pub uninterp spec fn sha3_256_of(data: Seq<u8>) -> Seq<u8>;

/// Relies on sha3::Sha3_256 through the one-shot `Digest::digest`: a
/// 32-byte digest determined by the input bytes alone.
#[verifier::external_body]
fn sha3_256_digest(data: &[u8]) -> (r: Vec<u8>)
    ensures
        r@ == sha3_256_of(data@),
        r@.len() == 32,
{
    <sha3::Sha3_256 as sha3::Digest>::digest(data).to_vec()
}

/// The lowercase hex digit of a nibble below 16.
pub open spec fn hex_digit(n: u8) -> char {
    if n < 10 {
        (n + 0x30) as char
    } else {
        (n + 87) as char
    }
}

/// The lowercase hex encoding: two digits per byte, high nibble first.
pub open spec fn hex_lower(data: Seq<u8>) -> Seq<char> {
    Seq::new(
        2 * data.len(),
        |i: int|
            if i % 2 == 0 {
                hex_digit(data[i / 2] >> 4)
            } else {
                hex_digit(data[i / 2] & 0x0f)
            },
    )
}

/// Relies on base16ct::lower::encode_string: the lowercase hex encoding of
/// the bytes, two digits per byte, high nibble first. Panics only above
/// `usize::MAX / 2` input bytes, which the precondition rules out.
#[verifier::external_body]
fn hex_lower_string(data: &Vec<u8>) -> (r: String)
    requires
        data@.len() <= usize::MAX / 2,
    ensures
        r@ == hex_lower(data@),
{
    base16ct::lower::encode_string(data.as_slice())
}

/// The stable identifier of a script: lowercase hex of the SHA3-256 digest
/// of its UTF-8 bytes.
pub open spec fn command_id_of(script: Seq<char>) -> Seq<char> {
    hex_lower(sha3_256_of(encode_utf8(script)))
}

impl UserCommand {
    /// Derive the command's stable identifier from its script text.
    pub fn generate_id(&self) -> (r: CommandId)
        ensures
            r@ == command_id_of(self.script@),
            r@.len() == 64,
    {
        let bytes = self.script.as_str().as_bytes();
        let hash = sha3_256_digest(bytes);
        hex_lower_string(&hash)
    }
}

// ----- loading commands from sources -----

/// Does a script restricted to `only_on` run on `current`?
pub open spec fn platform_allows(only_on: Option<Platform>, current: Platform) -> bool {
    match only_on {
        None => true,
        Some(p) => p == current,
    }
}

/// What registering a list of scripts does to a command map: scripts for
/// other platforms are skipped, the rest are inserted under their stable
/// identifier, later scripts winning on identifier collisions.
pub open spec fn register_spec(
    m: Map<Seq<char>, UserCommand>,
    entries: Seq<UserCommand>,
    current: Platform,
) -> Map<Seq<char>, UserCommand>
    decreases entries.len(),
{
    if entries.len() == 0 {
        m
    } else {
        let prev = register_spec(m, entries.drop_last(), current);
        let e = entries.last();
        if platform_allows(e.only_on, current) {
            prev.insert(command_id_of(e.script@), e)
        } else {
            prev
        }
    }
}

/// Register every script of a source into the command map: the pure part
/// of loading a source file.
pub fn register_scripts(
    commands: &mut CommandMap<UserCommand>,
    scripts: CommandsSource,
    current: Platform,
)
    requires
        old(commands).wf(),
    ensures
        final(commands).wf(),
        final(commands)@ == register_spec(old(commands)@, scripts.entries@, current),
{
    let ghost all = scripts.entries@;
    let mut entries = scripts.entries;
    let total: usize = entries.len();
    let mut i: usize = 0;
    while entries.len() > 0
        invariant
            commands.wf(),
            total == all.len(),
            i + entries@.len() == all.len(),
            entries@ == all.skip(i as int),
            commands@ == register_spec(old(commands)@, all.take(i as int), current),
        decreases entries@.len(),
    {
        let e = entries.remove(0);
        proof {
            assert(e == all[i as int]);
            assert(all.take(i + 1).drop_last() =~= all.take(i as int));
            assert(all.take(i + 1).last() == all[i as int]);
            assert(entries@ =~= all.skip(i + 1));
        }
        let allowed = match e.only_on {
            None => true,
            Some(Platform::Linux) => matches!(current, Platform::Linux),
            Some(Platform::Windows) => matches!(current, Platform::Windows),
        };
        if allowed {
            let id = e.generate_id();
            commands.insert(id, e);
        }
        i = i + 1;
    }
    proof {
        assert(all.take(all.len() as int) =~= all);
    }
}

// ----- directory-restricted commands -----

/// Whether `glob::Pattern::new` accepts a pattern text.
pub uninterp spec fn glob_pattern_ok(pattern: Seq<char>) -> bool;

/// What `glob::Pattern::matches` answers for a pattern and a path text.
pub uninterp spec fn glob_matches(pattern: Seq<char>, path: Seq<char>) -> bool;

/// Relies on glob::Pattern::new and glob::Pattern::matches: whether the
/// pattern parses, and if so whether it matches the path; both depend on
/// the two texts alone.
#[verifier::external_body]
fn glob_match(pattern: &str, path: &str) -> (r: Option<bool>)
    ensures
        glob_pattern_ok(pattern@) ==> r == Some(glob_matches(pattern@, path@)),
        !glob_pattern_ok(pattern@) ==> r is None,
{
    match glob::Pattern::new(pattern) {
        Ok(p) => Some(p.matches(path)),
        Err(_) => None,
    }
}

/// Is this command offered in the current directory? A command without an
/// `only_in_dir` pattern always is; one whose pattern does not parse gives
/// `None`, which callers treat as a broken source entry.
pub fn filter_only_in_dir(current_dir: &str, command: &UserCommand) -> (r: Option<bool>)
    ensures
        command.only_in_dir is None ==> r == Some(true),
        command.only_in_dir matches Some(p) ==> r == (if glob_pattern_ok(p@) {
            Some(glob_matches(p@, current_dir@))
        } else {
            None::<bool>
        }),
{
    match &command.only_in_dir {
        None => Some(true),
        Some(p) => glob_match(p.as_str(), current_dir),
    }
}

} // verus!
