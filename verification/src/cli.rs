//! The launcher's command-line surface and the decisions inside its main
//! loop: which registered commands are offered for choosing in the current
//! directory, and which history entries still resolve. Argument parsing
//! itself, and everything the chosen command then does, happen outside the
//! crate.

use vstd::prelude::*;

verus! {

use crate::filter::ListEntry;
use crate::registry::{
    CommandMap,
    UserCommand,
    glob_pattern_ok,
    glob_matches,
    filter_only_in_dir,
};

/// The launcher's command-line options.
pub struct Cli {
    /// Wipe the registry and the history.
    pub purge_all: bool,
    /// Wipe only the history.
    pub purge_history: bool,
    /// Print where the registry lives instead of running.
    pub registry_path: bool,
    /// A subcommand, or none for the interactive loop.
    pub command: Option<CliCommands>,
}

/// The launcher's subcommands.
pub enum CliCommands {
    /// Source management.
    Source { inner: SourceCommands },
    /// Reload commands from the registered sources.
    Reload,
}

/// The source-management subcommands.
pub enum SourceCommands {
    /// Register a source file.
    Add { path: String },
    /// List the registered sources.
    List,
    /// Forget a source file.
    Remove { path: String },
}

/// Is this command offered in `dir`? Its pattern, when it has one, parses
/// and matches the directory.
pub open spec fn visible_in(cmd: UserCommand, dir: Seq<char>) -> bool {
    match cmd.only_in_dir {
        None => true,
        Some(p) => glob_pattern_ok(p@) && glob_matches(p@, dir),
    }
}

/// A command whose directory pattern does not parse; offering lists refuse
/// to build over one.
pub open spec fn broken_pattern(cmd: UserCommand) -> bool {
    match cmd.only_in_dir {
        None => false,
        Some(p) => !glob_pattern_ok(p@),
    }
}

/// The (key, name) pairs the chooser is offered: every registered command
/// visible in the current directory, ascending by identifier.
pub open spec fn choice_pairs(
    keys: Seq<Seq<char>>,
    vals: Seq<UserCommand>,
    dir: Seq<char>,
) -> Seq<(Seq<char>, Seq<char>)> {
    Seq::new(keys.len(), |i: int| i).filter(|i: int| visible_in(vals[i], dir)).map_values(
        |i: int| (keys[i], vals[i].name@),
    )
}

/// The entries offered for choosing. `None` when some command's directory
/// pattern does not parse — the caller treats that as a broken source.
pub fn commands_to_entries(
    commands: &CommandMap<UserCommand>,
    current_dir: &str,
) -> (r: Option<Vec<ListEntry>>)
    requires
        commands.wf(),
    ensures
        r is Some <==> (forall|i: int|
            0 <= i < commands.val_seq().len() ==> !broken_pattern(
                #[trigger] commands.val_seq()[i],
            )),
        r matches Some(v) ==> v@.map_values(|e: ListEntry| (e.key@, e.name@)) == choice_pairs(
            commands.key_seq(),
            commands.val_seq(),
            current_dir@,
        ),
{
    let ghost keys = commands.key_seq();
    let ghost vals = commands.val_seq();
    let ghost dir = current_dir@;
    let ghost vis = |i: int| visible_in(vals[i], dir);
    let ghost pairf = |i: int| (keys[i], vals[i].name@);
    let ghost ef = |e: ListEntry| (e.key@, e.name@);
    let mut out: Vec<ListEntry> = Vec::new();
    let mut i: usize = 0;
    proof {
        reveal(Seq::filter);
        commands.lemma_lens();
        assert(out@.map_values(ef) =~= Seq::new(0, |t: int| t).filter(vis).map_values(pairf));
    }
    while i < commands.len()
        invariant
            commands.wf(),
            keys == commands.key_seq(),
            vals == commands.val_seq(),
            keys.len() == vals.len(),
            dir == current_dir@,
            vis == (|i: int| visible_in(vals[i], dir)),
            pairf == (|i: int| (keys[i], vals[i].name@)),
            ef == (|e: ListEntry| (e.key@, e.name@)),
            i <= keys.len(),
            forall|j: int| 0 <= j < i ==> !broken_pattern(#[trigger] vals[j]),
            out@.map_values(ef) == Seq::new(i as nat, |t: int| t).filter(vis).map_values(pairf),
        decreases keys.len() - i,
    {
        let cmd = commands.val_at(i);
        let verdict = filter_only_in_dir(current_dir, cmd);
        proof {
            reveal(Seq::filter);
            let sold = Seq::new(i as nat, |t: int| t);
            let snew = Seq::new((i + 1) as nat, |t: int| t);
            assert(snew.drop_last() =~= sold);
            assert(snew.last() == i as int);
            assert(snew.filter(vis) == if vis(i as int) {
                sold.filter(vis).push(i as int)
            } else {
                sold.filter(vis)
            });
        }
        match verdict {
            None => {
                proof {
                    assert(broken_pattern(vals[i as int]));
                }
                return None;
            },
            Some(true) => {
                let key = commands.key_at(i).clone();
                let name = cmd.name.clone();
                let ghost out0 = out@;
                let entry = ListEntry { key, name };
                proof {
                    assert(ef(entry) == pairf(i as int));
                }
                out.push(entry);
                proof {
                    assert(visible_in(vals[i as int], dir));
                    let sold = Seq::new(i as nat, |t: int| t);
                    let snew = Seq::new((i + 1) as nat, |t: int| t);
                    assert(out@.map_values(ef) =~= out0.map_values(ef).push(ef(out@[out@.len() - 1])));
                    assert(snew.filter(vis).map_values(pairf) =~= sold.filter(vis).map_values(
                        pairf,
                    ).push(pairf(i as int)));
                    assert(out@.map_values(ef) =~= snew.filter(vis).map_values(pairf));
                }
            },
            Some(false) => {
                proof {
                    assert(!visible_in(vals[i as int], dir));
                    assert(out@.map_values(ef) =~= Seq::new((i + 1) as nat, |t: int| t).filter(
                        vis,
                    ).map_values(pairf));
                }
            },
        }
        i = i + 1;
    }
    proof {
        assert(Seq::new(keys.len(), |t: int| t) =~= Seq::new(i as nat, |t: int| t));
    }
    Some(out)
}

/// The (key, name) pairs of the history list: every recorded id that still
/// names a registered command visible in the current directory, most
/// recent first.
pub open spec fn history_pairs(
    h: Seq<Seq<char>>,
    m: Map<Seq<char>, UserCommand>,
    dir: Seq<char>,
) -> Seq<(Seq<char>, Seq<char>)> {
    Seq::new(h.len(), |i: int| i).filter(
        |i: int| m.contains_key(h[i]) && visible_in(m[h[i]], dir),
    ).map_values(|i: int| (h[i], m[h[i]].name@)).reverse()
}

/// The history entries offered for choosing, most recent first. `None`
/// when a resolved command's directory pattern does not parse.
pub fn history_to_entries(
    history: &Vec<String>,
    commands: &CommandMap<UserCommand>,
    current_dir: &str,
) -> (r: Option<Vec<ListEntry>>)
    requires
        commands.wf(),
    ensures
        r is Some <==> (forall|i: int|
            0 <= i < history@.len() && commands@.contains_key(#[trigger] history@[i]@)
                ==> !broken_pattern(commands@[history@[i]@])),
        r matches Some(v) ==> v@.map_values(|e: ListEntry| (e.key@, e.name@)) == history_pairs(
            history@.map_values(|s: String| s@),
            commands@,
            current_dir@,
        ),
{
    let ghost h = history@.map_values(|s: String| s@);
    let ghost m = commands@;
    let ghost dir = current_dir@;
    let ghost vis = |i: int| m.contains_key(h[i]) && visible_in(m[h[i]], dir);
    let ghost pairf = |i: int| (h[i], m[h[i]].name@);
    let ghost ef = |e: ListEntry| (e.key@, e.name@);
    let mut fwd: Vec<ListEntry> = Vec::new();
    let mut i: usize = 0;
    proof {
        reveal(Seq::filter);
        assert(fwd@.map_values(ef) =~= Seq::new(0, |t: int| t).filter(vis).map_values(pairf));
    }
    while i < history.len()
        invariant
            commands.wf(),
            h == history@.map_values(|s: String| s@),
            m == commands@,
            dir == current_dir@,
            vis == (|i: int| m.contains_key(h[i]) && visible_in(m[h[i]], dir)),
            pairf == (|i: int| (h[i], m[h[i]].name@)),
            ef == (|e: ListEntry| (e.key@, e.name@)),
            i <= h.len(),
            forall|j: int|
                0 <= j < i && m.contains_key(#[trigger] h[j]) ==> !broken_pattern(m[h[j]]),
            fwd@.map_values(ef) == Seq::new(i as nat, |t: int| t).filter(vis).map_values(pairf),
        decreases h.len() - i,
    {
        let id = &history[i];
        proof {
            reveal(Seq::filter);
            let sold = Seq::new(i as nat, |t: int| t);
            let snew = Seq::new((i + 1) as nat, |t: int| t);
            assert(snew.drop_last() =~= sold);
            assert(snew.last() == i as int);
            assert(snew.filter(vis) == if vis(i as int) {
                sold.filter(vis).push(i as int)
            } else {
                sold.filter(vis)
            });
            assert(h[i as int] == history@[i as int]@);
        }
        match commands.get(id) {
            Some(cmd) => {
                match filter_only_in_dir(current_dir, cmd) {
                    None => {
                        proof {
                            assert(broken_pattern(m[h[i as int]]));
                            assert(commands@.contains_key(history@[i as int]@));
                            assert(broken_pattern(commands@[history@[i as int]@]));
                        }
                        return None;
                    },
                    Some(true) => {
                        let key = id.clone();
                        let name = cmd.name.clone();
                        let ghost fwd0 = fwd@;
                        let entry = ListEntry { key, name };
                        proof {
                            assert(ef(entry) == pairf(i as int));
                        }
                        fwd.push(entry);
                        proof {
                            assert(vis(i as int));
                            let sold = Seq::new(i as nat, |t: int| t);
                            let snew = Seq::new((i + 1) as nat, |t: int| t);
                            assert(fwd@.map_values(ef) =~= fwd0.map_values(ef).push(
                                ef(fwd@[fwd@.len() - 1]),
                            ));
                            assert(snew.filter(vis).map_values(pairf) =~= sold.filter(
                                vis,
                            ).map_values(pairf).push(pairf(i as int)));
                            assert(fwd@.map_values(ef) =~= snew.filter(vis).map_values(pairf));
                        }
                    },
                    Some(false) => {
                        proof {
                            assert(!vis(i as int));
                            assert(fwd@.map_values(ef) =~= Seq::new(
                                (i + 1) as nat,
                                |t: int| t,
                            ).filter(vis).map_values(pairf));
                        }
                    },
                }
            },
            None => {
                proof {
                    assert(!vis(i as int));
                    assert(fwd@.map_values(ef) =~= Seq::new((i + 1) as nat, |t: int| t).filter(
                        vis,
                    ).map_values(pairf));
                }
            },
        }
        i = i + 1;
    }
    proof {
        assert(Seq::new(h.len(), |t: int| t) =~= Seq::new(i as nat, |t: int| t));
        assert forall|t: int|
            0 <= t < history@.len() && commands@.contains_key(
                #[trigger] history@[t]@,
            ) implies !broken_pattern(commands@[history@[t]@]) by {
            assert(h[t] == history@[t]@);
        }
    }
    let mut rev: Vec<ListEntry> = Vec::new();
    let mut k: usize = fwd.len();
    while k > 0
        invariant
            k <= fwd@.len(),
            rev@.len() == fwd@.len() - k,
            forall|t: int| 0 <= t < rev@.len() ==> #[trigger] rev@[t] == fwd@[fwd@.len() - 1 - t],
        decreases k,
    {
        k = k - 1;
        let e = ListEntry { key: fwd[k].key.clone(), name: fwd[k].name.clone() };
        rev.push(e);
    }
    proof {
        assert(rev@ =~= fwd@.reverse());
        assert forall|t: int| 0 <= t < rev@.len() implies #[trigger] rev@.map_values(ef)[t]
            == fwd@.map_values(ef).reverse()[t] by {
            assert(rev@[t] == fwd@[fwd@.len() - 1 - t]);
        }
        assert(rev@.map_values(ef) =~= fwd@.map_values(ef).reverse());
    }
    Some(rev)
}

} // verus!
