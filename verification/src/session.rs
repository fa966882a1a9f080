//! The selection session: a keyboard-driven state machine over a list of
//! entries. One event is handled per step; the loop that draws frames and
//! blocks for events lives outside the crate and only feeds `KeyInput`
//! values in.
//!
//! The observable state is captured by [`SessionModel`]; every event
//! handler is proved to take the model exactly one [`step`]. The displayed
//! list is not part of the model: it is recomputed from the configuration
//! and the search text on every edit, never patched.

use vstd::prelude::*;

verus! {

use crate::filter::{ListEntry, filter_ordered, search_terms, filter_entries};
use crate::keyset::KeySet;
use crate::text::{push_char, pop_char};

/// Cosmetic and behavioural options of a session.
pub struct ListSearchExtra {
    /// Title of the box.
    pub title: String,
    /// Help text shown below the list.
    pub text: String,
    /// Whether several entries can be selected.
    pub multi_select: bool,
    /// List shown while the search text is empty (e.g. recent history);
    /// when absent, the empty search shows the full item list instead.
    pub empty_search_list: Option<Vec<ListEntry>>,
}

/// A session configuration: the item universe plus options.
pub struct ListSearch {
    pub extra: ListSearchExtra,
    pub items: Vec<ListEntry>,
}

/// One keyboard event, already decoded to its meaning. Everything the
/// session does not recognise arrives as `Other` and changes nothing.
#[derive(Clone, Copy, Debug)]
pub enum KeyInput {
    Cancel,
    Confirm,
    Char(char),
    Backspace,
    Up,
    Down,
    ToggleAll,
    ToggleOne,
    Other,
}

// ----- what the configuration determines -----

/// The empty search shows the default list when one was supplied.
pub open spec fn uses_default(config: ListSearch, search: Seq<char>) -> bool {
    search.len() == 0 && config.extra.empty_search_list is Some
}

pub open spec fn default_entries(config: ListSearch) -> Seq<ListEntry> {
    match config.extra.empty_search_list {
        Some(d) => d@,
        None => Seq::<ListEntry>::empty(),
    }
}

/// How many entries the current source (default list or item list) has.
pub open spec fn source_len(config: ListSearch, search: Seq<char>) -> nat {
    if uses_default(config, search) {
        default_entries(config).len()
    } else {
        config.items@.len()
    }
}

/// The source entry a displayed index points at.
pub open spec fn source_entry(config: ListSearch, search: Seq<char>, ix: usize) -> ListEntry {
    if uses_default(config, search) {
        default_entries(config)[ix as int]
    } else {
        config.items@[ix as int]
    }
}

/// The displayed list for a search text: the default list verbatim while
/// the search is empty and a default list exists, otherwise the filter
/// engine's ordering of the item list.
pub open spec fn displayed_of(config: ListSearch, search: Seq<char>) -> Seq<usize> {
    if uses_default(config, search) {
        Seq::new(default_entries(config).len(), |i: int| i as usize)
    } else {
        filter_ordered(config.items@, search_terms(search))
    }
}

/// The entry shown on row `j` of the displayed list.
pub open spec fn entry_on_row(config: ListSearch, search: Seq<char>, j: int) -> ListEntry {
    source_entry(config, search, displayed_of(config, search)[j])
}

/// Is `k` the key of some displayed row?
pub open spec fn key_displayed(config: ListSearch, search: Seq<char>, k: Seq<char>) -> bool {
    exists|j: int|
        0 <= j < displayed_of(config, search).len() && (#[trigger] entry_on_row(
            config,
            search,
            j,
        )).key@ == k
}

/// The keys of all displayed rows.
pub open spec fn displayed_key_set(config: ListSearch, search: Seq<char>) -> Set<Seq<char>> {
    Set::new(|k: Seq<char>| key_displayed(config, search, k))
}

// ----- the state machine -----

/// The observable state of a session: exactly the fields the event table
/// reads and writes. The displayed list is derived, not stored here.
#[verifier::ext_equal]
pub struct SessionModel {
    pub search: Seq<char>,
    pub selected: Set<Seq<char>>,
    pub cursor: int,
    pub exit: bool,
}

pub open spec fn initial_model() -> SessionModel {
    SessionModel { search: Seq::<char>::empty(), selected: Set::<Seq<char>>::empty(), cursor: 0, exit: false }
}

/// One step of the session state machine: the event table of the design,
/// written as a function.
pub open spec fn step(config: ListSearch, m: SessionModel, key: KeyInput) -> SessionModel {
    let d = displayed_of(config, m.search);
    match key {
        KeyInput::Cancel => SessionModel {
            search: m.search,
            selected: Set::<Seq<char>>::empty(),
            cursor: m.cursor,
            exit: true,
        },
        KeyInput::Confirm => if !config.extra.multi_select && 0 <= m.cursor && m.cursor < d.len() {
            SessionModel {
                search: m.search,
                selected: Set::<Seq<char>>::empty().insert(
                    entry_on_row(config, m.search, m.cursor).key@,
                ),
                cursor: m.cursor,
                exit: true,
            }
        } else {
            SessionModel { search: m.search, selected: m.selected, cursor: m.cursor, exit: true }
        },
        KeyInput::Char(c) => SessionModel {
            search: m.search.push(c),
            selected: m.selected,
            cursor: 0,
            exit: m.exit,
        },
        KeyInput::Backspace => SessionModel {
            search: if m.search.len() > 0 {
                m.search.drop_last()
            } else {
                m.search
            },
            selected: m.selected,
            cursor: 0,
            exit: m.exit,
        },
        KeyInput::Up => SessionModel {
            search: m.search,
            selected: m.selected,
            cursor: if m.cursor > 0 {
                m.cursor - 1
            } else {
                m.cursor
            },
            exit: m.exit,
        },
        KeyInput::Down => SessionModel {
            search: m.search,
            selected: m.selected,
            cursor: if m.cursor + 1 < d.len() {
                m.cursor + 1
            } else {
                m.cursor
            },
            exit: m.exit,
        },
        KeyInput::ToggleAll => if config.extra.multi_select {
            if exists|j: int|
                0 <= j < d.len() && m.selected.contains(
                    (#[trigger] entry_on_row(config, m.search, j)).key@,
                ) {
                SessionModel {
                    search: m.search,
                    selected: m.selected.difference(displayed_key_set(config, m.search)),
                    cursor: m.cursor,
                    exit: m.exit,
                }
            } else {
                SessionModel {
                    search: m.search,
                    selected: m.selected.union(displayed_key_set(config, m.search)),
                    cursor: m.cursor,
                    exit: m.exit,
                }
            }
        } else {
            m
        },
        KeyInput::ToggleOne => if config.extra.multi_select && 0 <= m.cursor && m.cursor
            < d.len() {
            let k = entry_on_row(config, m.search, m.cursor).key@;
            SessionModel {
                search: m.search,
                selected: if m.selected.contains(k) {
                    m.selected.remove(k)
                } else {
                    m.selected.insert(k)
                },
                cursor: m.cursor,
                exit: m.exit,
            }
        } else {
            m
        },
        KeyInput::Other => m,
    }
}

// ----- the runner -----

/// A live session: the configuration plus all mutable interaction state.
pub struct ListSearchRunner {
    /// The configuration, never changed by events.
    pub config: ListSearch,
    /// Indices into the current source, in display order; recomputed on
    /// every search edit.
    pub displayed_list: Vec<usize>,
    /// Content of the search input field.
    pub search_input: String,
    /// The set of selected keys.
    pub selected: KeySet,
    /// The highlighted row; meaningful only while the displayed list is
    /// non-empty.
    pub cursor: usize,
    /// Set once the session is over; the loop outside stops on it.
    pub exit: bool,
}

/// The model a runner presents.
pub open spec fn model(s: ListSearchRunner) -> SessionModel {
    SessionModel {
        search: s.search_input@,
        selected: s.selected@,
        cursor: s.cursor as int,
        exit: s.exit,
    }
}

impl ListSearchRunner {
    /// Internal consistency: the displayed list is what the filter engine
    /// gives for the current search text, its indices are in range of the
    /// source, and the cursor sits on a row whenever there is one.
    pub open spec fn wf(&self) -> bool {
        &&& self.selected.wf()
        &&& self.displayed_list@ == displayed_of(self.config, self.search_input@)
        &&& forall|j: int|
            0 <= j < self.displayed_list@.len() ==> (#[trigger] self.displayed_list@[j])
                < source_len(self.config, self.search_input@)
        &&& (self.displayed_list@.len() > 0 ==> (self.cursor as int) < self.displayed_list@.len())
        &&& (self.displayed_list@.len() == 0 ==> self.cursor == 0)
    }

    /// A fresh session: empty search text, so the default list (when given)
    /// shows first; nothing selected; the highlight on the first row.
    pub fn new(config: ListSearch) -> (s: Self)
        ensures
            s.wf(),
            s.config == config,
            model(s) == initial_model(),
    {
        let search_input = String::new();
        let displayed_list = compute_displayed(&config, &search_input);
        let s = ListSearchRunner {
            config,
            displayed_list,
            search_input,
            selected: KeySet::new(),
            cursor: 0,
            exit: false,
        };
        proof {
            assert(model(s) =~= initial_model());
        }
        s
    }

    /// Recompute the displayed list for the current search text. Everything
    /// else is left alone.
    pub fn update_displayed_list(&mut self)
        ensures
            final(self).displayed_list@ == displayed_of(old(self).config, old(self).search_input@),
            forall|j: int|
                0 <= j < final(self).displayed_list@.len() ==> (
                #[trigger] final(self).displayed_list@[j]) < source_len(
                    old(self).config,
                    old(self).search_input@,
                ),
            final(self).config == old(self).config,
            final(self).search_input == old(self).search_input,
            final(self).selected == old(self).selected,
            final(self).cursor == old(self).cursor,
            final(self).exit == old(self).exit,
    {
        self.displayed_list = compute_displayed(&self.config, &self.search_input);
    }

    /// The entry shown on row `j`.
    pub fn row_entry(&self, j: usize) -> (e: &ListEntry)
        requires
            self.wf(),
            (j as int) < self.displayed_list@.len(),
        ensures
            *e == entry_on_row(self.config, self.search_input@, j as int),
    {
        let ix = self.displayed_list[j];
        if self.search_input.as_str().is_empty() {
            match &self.config.extra.empty_search_list {
                Some(d) => {
                    return &d[ix];
                },
                None => {},
            }
        }
        &self.config.items[ix]
    }
}

/// Keys of the first `n` displayed rows.
spec fn keys_upto(config: ListSearch, search: Seq<char>, n: int) -> Set<Seq<char>> {
    Set::new(
        |k: Seq<char>|
            exists|j: int|
                0 <= j < n && (#[trigger] entry_on_row(config, search, j)).key@ == k,
    )
}

/// A key that names an entry of one of the session's two lists. Only such
/// keys can ever enter the selection set: that is what lets a selection
/// survive filtering.
pub open spec fn selectable_key(config: ListSearch, k: Seq<char>) -> bool {
    (exists|i: int| 0 <= i < config.items@.len() && (#[trigger] config.items@[i]).key@ == k)
        || (exists|i: int|
        0 <= i < default_entries(config).len() && (#[trigger] default_entries(config)[i]).key@
            == k)
}

impl ListSearchRunner {
    /// Every selected key names an entry the session was configured with.
    pub open spec fn selection_inv(&self) -> bool {
        forall|k: Seq<char>|
            #[trigger] self.selected@.contains(k) ==> selectable_key(self.config, k)
    }

    /// The key of the row the cursor sits on is a selectable key.
    proof fn lemma_row_key_selectable(&self, j: int)
        requires
            self.wf(),
            0 <= j < self.displayed_list@.len(),
        ensures
            selectable_key(self.config, entry_on_row(self.config, self.search_input@, j).key@),
    {
        let ix = self.displayed_list@[j];
        assert(ix < source_len(self.config, self.search_input@));
        if uses_default(self.config, self.search_input@) {
            assert(default_entries(self.config)[ix as int].key@ == entry_on_row(
                self.config,
                self.search_input@,
                j,
            ).key@);
        } else {
            assert(self.config.items@[ix as int].key@ == entry_on_row(
                self.config,
                self.search_input@,
                j,
            ).key@);
        }
    }

    /// Is the key of some displayed row selected? This is the condition the
    /// toggle-all handler branches on.
    fn any_displayed_selected(&self) -> (r: bool)
        requires
            self.wf(),
        ensures
            r == exists|j: int|
                0 <= j < displayed_of(self.config, self.search_input@).len()
                    && self.selected@.contains(
                    (#[trigger] entry_on_row(self.config, self.search_input@, j)).key@,
                ),
    {
        let mut j: usize = 0;
        while j < self.displayed_list.len()
            invariant
                self.wf(),
                j <= self.displayed_list@.len(),
                forall|t: int|
                    0 <= t < j ==> !self.selected@.contains(
                        (#[trigger] entry_on_row(self.config, self.search_input@, t)).key@,
                    ),
            decreases self.displayed_list@.len() - j,
        {
            let e = self.row_entry(j);
            if self.selected.contains(&e.key) {
                return true;
            }
            j = j + 1;
        }
        false
    }

    /// Remove the keys of every displayed row from the selection set.
    fn remove_displayed_keys(&mut self)
        requires
            old(self).wf(),
        ensures
            final(self).wf(),
            final(self).selected@ == old(self).selected@.difference(
                displayed_key_set(old(self).config, old(self).search_input@),
            ),
            forall|k: Seq<char>|
                #[trigger] final(self).selected@.contains(k) ==> old(self).selected@.contains(k),
            final(self).config == old(self).config,
            final(self).search_input == old(self).search_input,
            final(self).displayed_list == old(self).displayed_list,
            final(self).cursor == old(self).cursor,
            final(self).exit == old(self).exit,
    {
        let ghost m0 = self.selected@;
        let ghost config = self.config;
        let ghost search = self.search_input@;
        proof {
            assert(self.selected@ =~= m0.difference(keys_upto(config, search, 0)));
        }
        let mut j: usize = 0;
        while j < self.displayed_list.len()
            invariant
                self.wf(),
                m0 == old(self).selected@,
                config == self.config,
                search == self.search_input@,
                self.config == old(self).config,
                self.search_input == old(self).search_input,
                self.displayed_list == old(self).displayed_list,
                self.cursor == old(self).cursor,
                self.exit == old(self).exit,
                j <= self.displayed_list@.len(),
                self.selected@ == m0.difference(keys_upto(config, search, j as int)),
            decreases self.displayed_list@.len() - j,
        {
            let key_string = self.row_entry(j).key.clone();
            self.selected.remove(&key_string);
            proof {
                let kj = entry_on_row(config, search, j as int).key@;
                assert(key_string@ == kj);
                let before = m0.difference(keys_upto(config, search, j as int));
                let after = m0.difference(keys_upto(config, search, j + 1));
                assert forall|x: Seq<char>| before.remove(kj).contains(x) implies after.contains(
                    x,
                ) by {
                    if keys_upto(config, search, j + 1).contains(x) {
                        let t = choose|t: int|
                            0 <= t < j + 1 && (#[trigger] entry_on_row(config, search, t)).key@
                                == x;
                        assert(t == j);
                    }
                }
                assert forall|x: Seq<char>| after.contains(x) implies before.remove(kj).contains(
                    x,
                ) by {
                    if keys_upto(config, search, j as int).contains(x) {
                        let t = choose|t: int|
                            0 <= t < j && (#[trigger] entry_on_row(config, search, t)).key@ == x;
                        assert(keys_upto(config, search, j + 1).contains(x));
                    }
                    assert(x != kj);
                }
                assert(self.selected@ =~= after);
            }
            j = j + 1;
        }
        proof {
            assert(keys_upto(config, search, self.displayed_list@.len() as int)
                =~= displayed_key_set(config, search));
            assert(final(self).selected@ =~= old(self).selected@.difference(
                displayed_key_set(old(self).config, old(self).search_input@),
            ));
        }
    }

    /// Insert the keys of every displayed row into the selection set.
    fn insert_displayed_keys(&mut self)
        requires
            old(self).wf(),
        ensures
            final(self).wf(),
            final(self).selected@ == old(self).selected@.union(
                displayed_key_set(old(self).config, old(self).search_input@),
            ),
            forall|k: Seq<char>|
                #[trigger] final(self).selected@.contains(k) ==> old(self).selected@.contains(k)
                    || selectable_key(old(self).config, k),
            final(self).config == old(self).config,
            final(self).search_input == old(self).search_input,
            final(self).displayed_list == old(self).displayed_list,
            final(self).cursor == old(self).cursor,
            final(self).exit == old(self).exit,
    {
        let ghost m0 = self.selected@;
        let ghost config = self.config;
        let ghost search = self.search_input@;
        proof {
            assert(self.selected@ =~= m0.union(keys_upto(config, search, 0)));
        }
        let mut j: usize = 0;
        while j < self.displayed_list.len()
            invariant
                self.wf(),
                m0 == old(self).selected@,
                config == self.config,
                search == self.search_input@,
                self.config == old(self).config,
                self.search_input == old(self).search_input,
                self.displayed_list == old(self).displayed_list,
                self.cursor == old(self).cursor,
                self.exit == old(self).exit,
                j <= self.displayed_list@.len(),
                self.selected@ == m0.union(keys_upto(config, search, j as int)),
            decreases self.displayed_list@.len() - j,
        {
            let key_string = self.row_entry(j).key.clone();
            self.selected.insert(key_string);
            proof {
                let kj = entry_on_row(config, search, j as int).key@;
                let before = m0.union(keys_upto(config, search, j as int));
                let after = m0.union(keys_upto(config, search, j + 1));
                assert forall|x: Seq<char>| before.insert(kj).contains(x) implies after.contains(
                    x,
                ) by {
                    if x == kj {
                        assert(keys_upto(config, search, j + 1).contains(x));
                    } else if keys_upto(config, search, j as int).contains(x) {
                        let t = choose|t: int|
                            0 <= t < j && (#[trigger] entry_on_row(config, search, t)).key@ == x;
                        assert(keys_upto(config, search, j + 1).contains(x));
                    }
                }
                assert forall|x: Seq<char>| after.contains(x) implies before.insert(kj).contains(
                    x,
                ) by {
                    if keys_upto(config, search, j + 1).contains(x) {
                        let t = choose|t: int|
                            0 <= t < j + 1 && (#[trigger] entry_on_row(config, search, t)).key@
                                == x;
                        if t < j {
                            assert(keys_upto(config, search, j as int).contains(x));
                        }
                    }
                }
                assert(self.selected@ =~= after);
            }
            j = j + 1;
        }
        proof {
            assert(keys_upto(config, search, self.displayed_list@.len() as int)
                =~= displayed_key_set(config, search));
            assert(final(self).selected@ =~= old(self).selected@.union(
                displayed_key_set(old(self).config, old(self).search_input@),
            ));
            assert forall|k: Seq<char>| #[trigger] final(self).selected@.contains(k) implies old(
                self,
            ).selected@.contains(k) || selectable_key(old(self).config, k) by {
                if !old(self).selected@.contains(k) {
                    assert(key_displayed(config, search, k));
                    let j = choose|j: int|
                        0 <= j < displayed_of(config, search).len() && (
                        #[trigger] entry_on_row(config, search, j)).key@ == k;
                    old(self).lemma_row_key_selectable(j);
                }
            }
        }
    }

    /// Apply one keyboard event — the event table of the state machine,
    /// one fully processed event per call.
    pub fn handle_key_event(&mut self, key: KeyInput)
        requires
            old(self).wf(),
        ensures
            final(self).wf(),
            final(self).config == old(self).config,
            model(*final(self)) == step(old(self).config, model(*old(self)), key),
            old(self).selection_inv() ==> final(self).selection_inv(),
    {
        match key {
            KeyInput::Cancel => {
                self.selected = KeySet::new();
                self.exit = true;
            },
            KeyInput::Confirm => {
                self.exit = true;
                if !self.config.extra.multi_select && self.displayed_list.len() > 0 {
                    let key_string = self.row_entry(self.cursor).key.clone();
                    let mut fresh = KeySet::new();
                    fresh.insert(key_string);
                    self.selected = fresh;
                    proof {
                        old(self).lemma_row_key_selectable(old(self).cursor as int);
                    }
                }
            },
            KeyInput::Char(c) => {
                push_char(&mut self.search_input, c);
                self.cursor = 0;
                self.update_displayed_list();
            },
            KeyInput::Backspace => {
                pop_char(&mut self.search_input);
                self.cursor = 0;
                self.update_displayed_list();
            },
            KeyInput::Up => {
                if self.cursor > 0 {
                    self.cursor = self.cursor - 1;
                }
            },
            KeyInput::Down => {
                if self.displayed_list.len() > 0 && self.cursor < self.displayed_list.len() - 1 {
                    self.cursor = self.cursor + 1;
                }
            },
            KeyInput::ToggleAll => {
                if self.config.extra.multi_select {
                    if self.any_displayed_selected() {
                        self.remove_displayed_keys();
                    } else {
                        self.insert_displayed_keys();
                    }
                }
            },
            KeyInput::ToggleOne => {
                if self.config.extra.multi_select && self.displayed_list.len() > 0 {
                    let key_string = self.row_entry(self.cursor).key.clone();
                    if self.selected.contains(&key_string) {
                        self.selected.remove(&key_string);
                    } else {
                        self.selected.insert(key_string);
                    }
                    proof {
                        old(self).lemma_row_key_selectable(old(self).cursor as int);
                    }
                }
            },
            KeyInput::Other => {},
        }
        proof {
            assert(model(*self) =~= step(old(self).config, model(*old(self)), key));
        }
    }

    /// How many keys are selected.
    pub fn selection_len(&self) -> (n: usize)
        ensures
            n == self.selected.key_seq().len(),
    {
        self.selected.len()
    }

    /// The session's output: the selected keys, ascending. Empty means the
    /// session was cancelled or confirmed with nothing resolvable.
    pub fn into_selection(self) -> (r: Vec<String>)
        ensures
            r@.map_values(|k: String| k@) == self.selected.key_seq(),
    {
        self.selected.into_keys()
    }
}

/// The displayed list for a configuration and search text: the default
/// list verbatim on an empty search when one exists, otherwise the filter
/// engine's result.
fn compute_displayed(config: &ListSearch, search: &String) -> (r: Vec<usize>)
    ensures
        r@ == displayed_of(*config, search@),
        forall|j: int|
            0 <= j < r@.len() ==> (#[trigger] r@[j]) < source_len(*config, search@),
{
    if search.as_str().is_empty() {
        match &config.extra.empty_search_list {
            Some(d) => {
                let n = d.len();
                let mut r: Vec<usize> = Vec::new();
                let mut i: usize = 0;
                proof {
                    assert(r@ =~= Seq::new(0, |t: int| t as usize));
                }
                while i < n
                    invariant
                        n == d@.len(),
                        i <= n,
                        r@ == Seq::new(i as nat, |t: int| t as usize),
                    decreases n - i,
                {
                    r.push(i);
                    proof {
                        assert(r@ =~= Seq::new((i + 1) as nat, |t: int| t as usize));
                    }
                    i = i + 1;
                }
                return r;
            },
            None => {},
        }
    }
    filter_entries(&config.items, search.as_str())
}

// ----- render projections -----
//
// Rendering is a pure projection of state: these functions compute the
// text the frame shows and mutate nothing. Placing the text in a bordered
// frame is plain drawing and happens outside the crate.

/// The marker and name a row shows.
pub open spec fn row_label_spec(multi: bool, selected: Set<Seq<char>>, e: ListEntry) -> Seq<char> {
    if multi {
        (if selected.contains(e.key@) {
            "[X] "@
        } else {
            "[ ] "@
        }) + e.name@
    } else {
        e.name@
    }
}

impl ListSearchRunner {
    /// What the search field shows: the search text, or a single blank
    /// placeholder character when it is empty, so the input row never
    /// vanishes.
    pub fn search_display(&self) -> (r: String)
        ensures
            self.search_input@.len() == 0 ==> r@ == " "@,
            self.search_input@.len() > 0 ==> r@ == self.search_input@,
    {
        if self.search_input.as_str().is_empty() {
            String::from_str(" ")
        } else {
            self.search_input.clone()
        }
    }

    /// The text of row `j`: in multi-select mode a fixed-width checkbox
    /// marker reflecting selection-set membership, then the entry's name.
    pub fn row_label(&self, j: usize) -> (r: String)
        requires
            self.wf(),
            (j as int) < self.displayed_list@.len(),
        ensures
            r@ == row_label_spec(
                self.config.extra.multi_select,
                self.selected@,
                entry_on_row(self.config, self.search_input@, j as int),
            ),
    {
        let e = self.row_entry(j);
        if self.config.extra.multi_select {
            if self.selected.contains(&e.key) {
                String::from_str("[X] ").concat(e.name.as_str())
            } else {
                String::from_str("[ ] ").concat(e.name.as_str())
            }
        } else {
            e.name.clone()
        }
    }

    /// How many rows the current displayed list has.
    pub fn displayed_len(&self) -> (n: usize)
        ensures
            n == self.displayed_list@.len(),
    {
        self.displayed_list.len()
    }
}

/// The bottom legend: label/key pairs in display order. The toggle
/// entries appear only in multi-select mode.
pub fn legend_entries(multi_select: bool) -> (r: Vec<(String, String)>)
    ensures
        multi_select ==> r@.len() == 5,
        !multi_select ==> r@.len() == 3,
        r@[0].0@ == "Change Line"@ && r@[0].1@ == "Up/Down"@,
        multi_select ==> r@[1].0@ == "Toogle select"@ && r@[1].1@ == "Right"@,
        multi_select ==> r@[2].0@ == "Toogle all"@ && r@[2].1@ == "Left"@,
        r@[r@.len() - 2].0@ == "Confirm"@ && r@[r@.len() - 2].1@ == "Enter"@,
        r@[r@.len() - 1].0@ == "Quit"@ && r@[r@.len() - 1].1@ == "Esc"@,
{
    let mut r: Vec<(String, String)> = Vec::new();
    r.push((String::from_str("Change Line"), String::from_str("Up/Down")));
    if multi_select {
        r.push((String::from_str("Toogle select"), String::from_str("Right")));
        r.push((String::from_str("Toogle all"), String::from_str("Left")));
    }
    r.push((String::from_str("Confirm"), String::from_str("Enter")));
    r.push((String::from_str("Quit"), String::from_str("Esc")));
    r
}

// ----- laws of the state machine -----

/// Recomputing the displayed list from unchanged inputs yields the
/// identical sequence: two well-formed sessions over the same
/// configuration and search text display exactly the same rows.
pub proof fn lemma_displayed_deterministic(a: ListSearchRunner, b: ListSearchRunner)
    requires
        a.wf(),
        b.wf(),
        a.config == b.config,
        a.search_input@ == b.search_input@,
    ensures
        a.displayed_list@ == b.displayed_list@,
{
}

/// Search edits never touch the selection set.
pub proof fn lemma_edit_preserves_selection(config: ListSearch, m: SessionModel, key: KeyInput)
    requires
        key is Char || key is Backspace,
    ensures
        step(config, m, key).selected == m.selected,
{
}

/// Typing a character and erasing it again restores the search text — and
/// with it the displayed list — while the selection set never moves; an
/// entry filtered out and back in is therefore still marked selected.
pub proof fn lemma_selection_persists_through_edit(config: ListSearch, m: SessionModel, c: char)
    ensures
        step(config, step(config, m, KeyInput::Char(c)), KeyInput::Backspace).selected
            == m.selected,
        step(config, step(config, m, KeyInput::Char(c)), KeyInput::Backspace).search == m.search,
        step(config, step(config, m, KeyInput::Char(c)), KeyInput::Backspace).exit == m.exit,
{
    let m1 = step(config, m, KeyInput::Char(c));
    assert(m1.search.len() > 0);
    assert(m1.search.drop_last() =~= m.search);
}

/// Two toggle-all presses in a row restore the selection set, provided the
/// displayed rows started out uniformly selected or uniformly unselected.
/// (From a mixed state the pair instead leaves every displayed row
/// selected.)
pub proof fn lemma_toggle_all_pair(config: ListSearch, m: SessionModel)
    requires
        config.extra.multi_select,
        m.selected.disjoint(displayed_key_set(config, m.search)) || displayed_key_set(
            config,
            m.search,
        ).subset_of(m.selected),
    ensures
        step(config, step(config, m, KeyInput::ToggleAll), KeyInput::ToggleAll).selected
            == m.selected,
{
    let d = displayed_of(config, m.search);
    let dk = displayed_key_set(config, m.search);
    let m1 = step(config, m, KeyInput::ToggleAll);
    let m2 = step(config, m1, KeyInput::ToggleAll);
    assert(m1.search == m.search);
    if d.len() == 0 {
        assert(dk =~= Set::<Seq<char>>::empty());
        assert(m1.selected =~= m.selected);
        assert(m2.selected =~= m.selected);
    } else if m.selected.disjoint(dk) {
        assert(!exists|j: int|
            0 <= j < d.len() && m.selected.contains(
                (#[trigger] entry_on_row(config, m.search, j)).key@,
            )) by {
            if exists|j: int|
                0 <= j < d.len() && m.selected.contains(
                    (#[trigger] entry_on_row(config, m.search, j)).key@,
                ) {
                let j = choose|j: int|
                    0 <= j < d.len() && m.selected.contains(
                        (#[trigger] entry_on_row(config, m.search, j)).key@,
                    );
                assert(dk.contains(entry_on_row(config, m.search, j).key@));
            }
        }
        assert(m1.selected == m.selected.union(dk));
        assert(dk.contains(entry_on_row(config, m.search, 0).key@));
        assert(m1.selected.contains(entry_on_row(config, m.search, 0).key@));
        assert(m2.selected == m1.selected.difference(dk));
        assert(m2.selected =~= m.selected);
    } else {
        assert(dk.contains(entry_on_row(config, m.search, 0).key@));
        assert(m.selected.contains(entry_on_row(config, m.search, 0).key@));
        assert(m1.selected == m.selected.difference(dk));
        assert(!exists|j: int|
            0 <= j < d.len() && m1.selected.contains(
                (#[trigger] entry_on_row(config, m.search, j)).key@,
            )) by {
            if exists|j: int|
                0 <= j < d.len() && m1.selected.contains(
                    (#[trigger] entry_on_row(config, m.search, j)).key@,
                ) {
                let j = choose|j: int|
                    0 <= j < d.len() && m1.selected.contains(
                        (#[trigger] entry_on_row(config, m.search, j)).key@,
                    );
                assert(dk.contains(entry_on_row(config, m.search, j).key@));
            }
        }
        assert(m2.selected == m1.selected.union(dk));
        assert(m2.selected =~= m.selected);
    }
}

/// In single-select mode at most one key is ever selected: every event
/// takes an empty-or-singleton selection set to an empty-or-singleton
/// one, so a session started empty can never hand back two keys.
pub proof fn lemma_single_select_at_most_one(config: ListSearch, m: SessionModel, key: KeyInput)
    requires
        !config.extra.multi_select,
        exists|k: Seq<char>| m.selected.subset_of(Set::<Seq<char>>::empty().insert(k)),
    ensures
        exists|k: Seq<char>|
            step(config, m, key).selected.subset_of(Set::<Seq<char>>::empty().insert(k)),
{
    let k0 = choose|k: Seq<char>| m.selected.subset_of(Set::<Seq<char>>::empty().insert(k));
    let after = step(config, m, key).selected;
    match key {
        KeyInput::Cancel => {
            assert(after.subset_of(Set::<Seq<char>>::empty().insert(k0)));
        },
        KeyInput::Confirm => {
            if 0 <= m.cursor && m.cursor < displayed_of(config, m.search).len() {
                let kc = entry_on_row(config, m.search, m.cursor).key@;
                assert(after.subset_of(Set::<Seq<char>>::empty().insert(kc)));
            } else {
                assert(after.subset_of(Set::<Seq<char>>::empty().insert(k0)));
            }
        },
        _ => {
            assert(after == m.selected);
            assert(after.subset_of(Set::<Seq<char>>::empty().insert(k0)));
        },
    }
}

/// Move-up at the top row stays at the top; move-down at the last row
/// stays at the last row; on an empty displayed list neither changes the
/// state at all.
pub proof fn lemma_cursor_boundaries(config: ListSearch, m: SessionModel)
    requires
        0 <= m.cursor,
    ensures
        m.cursor == 0 ==> step(config, m, KeyInput::Up) == m,
        displayed_of(config, m.search).len() > 0 && m.cursor == displayed_of(
            config,
            m.search,
        ).len() - 1 ==> step(config, m, KeyInput::Down) == m,
        displayed_of(config, m.search).len() == 0 ==> step(config, m, KeyInput::Down) == m && (
        m.cursor == 0 ==> step(config, m, KeyInput::Up) == m),
{
    if m.cursor == 0 {
        assert(step(config, m, KeyInput::Up) =~= m);
    }
    let d = displayed_of(config, m.search);
    if d.len() > 0 && m.cursor == d.len() - 1 {
        assert(step(config, m, KeyInput::Down) =~= m);
    }
    if d.len() == 0 {
        assert(step(config, m, KeyInput::Down) =~= m);
    }
}

} // verus!
