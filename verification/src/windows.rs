//! Which values are shown in a window of their own.

use crate::environment::{valid_value, Environment, Identifier, Type};
use crate::traits::MatrixNumber;
use vstd::prelude::*;

verus! {

/// Whether the window of a value is open.
#[derive(Debug, Clone, Copy, PartialEq, Eq, Structural)]
pub struct WindowState {
    pub is_open: bool,
}

/// The windows of the values, by the names of the values.
#[derive(Debug, Clone)]
pub struct Windows {
    entries: Vec<(Identifier, WindowState)>,
}

impl Windows {
    /// No name has two windows.
    pub closed spec fn wf(&self) -> bool {
        forall|i: int, j: int|
            0 <= i < j < self.entries@.len() ==> (#[trigger] self.entries@[i]).0@ != (
            #[trigger] self.entries@[j]).0@
    }

    /// Whether the window at `i` is the one of `name`.
    spec fn shows(self, i: int, name: Seq<char>) -> bool {
        0 <= i < self.entries@.len() && self.entries@[i].0@ == name
    }

    /// Where the window of `name` stands.
    spec fn position(self, name: Seq<char>) -> int {
        choose|i: int| self.shows(i, name)
    }

    /// Whether the window is open, by name.
    pub closed spec fn view(&self) -> Map<Seq<char>, bool> {
        Map::new(
            |name: Seq<char>| exists|i: int| self.shows(i, name),
            |name: Seq<char>| self.entries@[self.position(name)].1.is_open,
        )
    }

    /// The names that have a window, in the order in which they got it.
    pub closed spec fn names(&self) -> Seq<Seq<char>> {
        Seq::new(self.entries@.len(), |i: int| self.entries@[i].0@)
    }

    /// A name has its window in one place only, and the view tells whether the
    /// window that stands there is open.
    proof fn lemma_shown(self, i: int, name: Seq<char>)
        requires
            self.wf(),
            self.shows(i, name),
        ensures
            self.position(name) == i,
            self@.contains_key(name),
            self@[name] == self.entries@[i].1.is_open,
    {
        let p = self.position(name);
        assert(self.shows(p, name));
        if p < i {
            assert(self.entries@[p].0@ != self.entries@[i].0@);
        } else if i < p {
            assert(self.entries@[i].0@ != self.entries@[p].0@);
        }
    }

    /// The names with a window are those of the view, each once.
    pub proof fn lemma_names(self)
        requires
            self.wf(),
        ensures
            self.names().no_duplicates(),
            forall|name: Seq<char>| self.names().contains(name) <==> self@.contains_key(name),
    {
        assert forall|i: int, j: int|
            0 <= i < self.names().len() && 0 <= j < self.names().len() && i != j implies self.names()[i]
            != self.names()[j] by {
            if i < j {
                assert(self.entries@[i].0@ != self.entries@[j].0@);
            } else {
                assert(self.entries@[j].0@ != self.entries@[i].0@);
            }
        }
        assert forall|name: Seq<char>| self.names().contains(name) implies self@.contains_key(
            name,
        ) by {
            let i = choose|i: int| 0 <= i < self.names().len() && self.names()[i] == name;
            assert(self.shows(i, name));
        }
        assert forall|name: Seq<char>| self@.contains_key(name) implies self.names().contains(
            name,
        ) by {
            let i = self.position(name);
            assert(self.shows(i, name));
            assert(self.names()[i] == name);
        }
    }

    /// No windows.
    pub fn new() -> (r: Self)
        ensures
            r.wf(),
            r@ == Map::<Seq<char>, bool>::empty(),
            r.names() == Seq::<Seq<char>>::empty(),
    {
        let r = Self { entries: Vec::new() };
        assert(r@ =~= Map::<Seq<char>, bool>::empty());
        assert(r.names() =~= Seq::<Seq<char>>::empty());
        r
    }

    /// Where the window of `id` stands, if it has one.
    fn find(&self, id: &Identifier) -> (r: Option<usize>)
        ensures
            match r {
                Some(i) => self.shows(i as int, id@),
                None => forall|k: int| !self.shows(k, id@),
            },
    {
        let mut i: usize = 0;
        while i < self.entries.len()
            invariant
                i <= self.entries.len(),
                forall|k: int| 0 <= k < i ==> !self.shows(k, id@),
            decreases self.entries.len() - i,
        {
            if self.entries[i].0.same_as(id) {
                return Some(i);
            }
            i += 1;
        }
        None
    }

    /// Gives `id` a window in the given state; the state of a window that `id`
    /// had before is replaced. A new name comes last.
    pub fn insert(&mut self, id: Identifier, state: WindowState)
        requires
            old(self).wf(),
        ensures
            final(self).wf(),
            final(self)@ == old(self)@.insert(id@, state.is_open),
            final(self).names() == (if old(self)@.contains_key(id@) {
                old(self).names()
            } else {
                old(self).names().push(id@)
            }),
    {
        let ghost before = *self;
        let ghost expected = before@.insert(id@, state.is_open);
        match self.find(&id) {
            Some(place) => {
                self.entries[place] = (id, state);
                assert forall|name: Seq<char>, k: int| self.shows(k, name) <==> before.shows(
                    k,
                    name,
                ) by {}
                assert(self.names() =~= before.names());
                assert(self.wf()) by {
                    assert forall|i: int, j: int| 0 <= i < j < self.entries@.len() implies (
                    #[trigger] self.entries@[i]).0@ != (#[trigger] self.entries@[j]).0@ by {
                        assert(before.entries@[i].0@ != before.entries@[j].0@);
                    }
                }
                assert forall|name: Seq<char>| expected.contains_key(name) implies #[trigger]
                    self@.contains_key(name) && self@[name] == expected[name] by {
                    if name == id@ {
                        self.lemma_shown(place as int, name);
                    } else {
                        let b = before.position(name);
                        assert(before.shows(b, name));
                        before.lemma_shown(b, name);
                        self.lemma_shown(b, name);
                    }
                }
                assert forall|name: Seq<char>| #[trigger]
                    self@.contains_key(name) implies expected.contains_key(name) by {
                    let k = self.position(name);
                    assert(self.shows(k, name));
                    assert(before.shows(k, name));
                }
                assert(self@ =~= expected);
                assert(before.shows(place as int, id@));
            },
            None => {
                self.entries.push((id, state));
                let ghost at = before.entries@.len() as int;
                assert(self.shows(at, id@));
                assert(self.names() =~= before.names().push(id@));
                assert(self.wf()) by {
                    assert forall|i: int, j: int| 0 <= i < j < self.entries@.len() implies (
                    #[trigger] self.entries@[i]).0@ != (#[trigger] self.entries@[j]).0@ by {
                        if j < at {
                            assert(before.entries@[i].0@ != before.entries@[j].0@);
                        } else {
                            assert(!before.shows(i, id@));
                        }
                    }
                }
                assert forall|name: Seq<char>| expected.contains_key(name) implies #[trigger]
                    self@.contains_key(name) && self@[name] == expected[name] by {
                    if name == id@ {
                        self.lemma_shown(at, name);
                    } else {
                        let b = before.position(name);
                        assert(before.shows(b, name));
                        before.lemma_shown(b, name);
                        assert(self.entries@[b] == before.entries@[b]);
                        self.lemma_shown(b, name);
                    }
                }
                assert forall|name: Seq<char>| #[trigger]
                    self@.contains_key(name) implies expected.contains_key(name) by {
                    let k = self.position(name);
                    assert(self.shows(k, name));
                    if name != id@ {
                        assert(before.shows(k, name));
                    }
                }
                assert(self@ =~= expected);
                assert(!before@.contains_key(id@)) by {
                    if before@.contains_key(id@) {
                        assert(before.shows(before.position(id@), id@));
                    }
                }
            },
        }
    }

    /// The state of the window of `id`, if it has one.
    pub fn get(&self, id: &Identifier) -> (r: Option<WindowState>)
        requires
            self.wf(),
        ensures
            match r {
                Some(state) => self@.contains_key(id@) && state.is_open == self@[id@],
                None => !self@.contains_key(id@),
            },
    {
        match self.find(id) {
            Some(place) => {
                proof {
                    self.lemma_shown(place as int, id@);
                }
                Some(self.entries[place].1)
            },
            None => None,
        }
    }

    /// How many names have a window.
    pub fn len(&self) -> (n: usize)
        ensures
            n == self.names().len(),
    {
        self.entries.len()
    }

    /// The name at `i` and the state of its window.
    pub fn entry(&self, i: usize) -> (r: (&Identifier, WindowState))
        requires
            self.wf(),
            i < self.names().len(),
        ensures
            r.0@ == self.names()[i as int],
            self@.contains_key(r.0@),
            r.1.is_open == self@[r.0@],
    {
        proof {
            self.lemma_shown(i as int, self.entries@[i as int].0@);
        }
        (&self.entries[i].0, self.entries[i].1)
    }
}

/// Binds `identifier` to `value` and gives it a closed window. Where every value
/// had a window before, every value has one after.
pub fn insert_to_env<T: MatrixNumber>(
    env: &mut Environment<T>,
    identifier: Identifier,
    value: Type<T>,
    windows: &mut Windows,
)
    requires
        old(env).wf(),
        old(windows).wf(),
        valid_value(value@),
    ensures
        final(env).wf(),
        final(windows).wf(),
        final(env)@ == old(env)@.insert(identifier@, value@),
        final(windows)@ == old(windows)@.insert(identifier@, false),
        old(env)@.dom().subset_of(old(windows)@.dom()) ==> final(env)@.dom().subset_of(
            final(windows)@.dom(),
        ),
{
    env.insert(identifier.duplicate(), value);
    windows.insert(identifier, WindowState { is_open: false });
}

} // verus!
