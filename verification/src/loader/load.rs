//! The order in which an image and what it depends on are loaded. Opening files and relocating
//! images is done elsewhere: a `Loading` says what is to be done next and takes in what came of it.

use vstd::prelude::*;
use crate::error::KError;
use crate::loader::loader;
use crate::loader::loader::{after_attempt, candidate_paths, LoadRegistry, LoadStart, RegistryEntry, SearchStep};
use crate::util;
use crate::util::bytes_copy;

verus! {

/// An image that another one needs, and where it is if it lies in the working directory.
pub struct Needed {
    pub name: Vec<u8>,
    pub in_cwd: Vec<u8>,
}

/// The model of a `Needed`.
#[verifier::ext_equal]
pub struct Need {
    pub name: Seq<u8>,
    pub in_cwd: Seq<u8>,
}

/// An image that has been opened, and the modules loaded so far for it.
pub struct Image {
    pub canonical: Vec<u8>,
    pub needed: Vec<Needed>,
    /// The directories in which the image wants its dependencies to be looked for.
    pub dirs: Vec<Vec<u8>>,
    pub deps: Vec<u64>,
}

/// The model of an `Image`.
#[verifier::ext_equal]
pub struct Opened {
    pub canonical: Seq<u8>,
    pub needed: Seq<Need>,
    pub dirs: Seq<Seq<u8>>,
    pub deps: Seq<u64>,
}

/// The search for one image: place `k` of `places` is being tried.
pub struct Level {
    pub places: Vec<Vec<u8>>,
    pub k: usize,
    pub absolute: bool,
    pub image: Option<Image>,
}

/// The model of a `Level`.
#[verifier::ext_equal]
pub struct Search {
    pub places: Seq<Seq<u8>>,
    pub k: int,
    pub absolute: bool,
    pub image: Option<Opened>,
}

/// What is to be done next.
#[derive(Clone, Copy)]
pub enum Phase {
    /// Find out the canonical path of the place.
    Resolve,
    /// Open the place, read it and lay the image out.
    Open,
    /// Relocate the image against its dependencies and set it up.
    Finish,
    /// The load is over.
    Done(Result<u64, KError>),
}

/// The load of an image with everything it needs.
pub struct Loading {
    pub registry: LoadRegistry,
    /// The outermost search first; each of the others is for a dependency of the one before it.
    pub levels: Vec<Level>,
    pub phase: Phase,
}

/// A module that is registered: its id, its canonical path, and whether it is still held.
pub struct Known {
    pub id: u64,
    pub canonical: Seq<u8>,
    pub alive: bool,
}

/// The model of a `Loading`.
#[verifier::ext_equal]
pub struct Load {
    pub modules: Seq<Known>,
    pub in_progress: Seq<Seq<u8>>,
    pub levels: Seq<Search>,
    pub phase: Phase,
}

pub open spec fn needs(s: Seq<Needed>) -> Seq<Need> {
    s.map_values(|n: Needed| Need { name: n.name@, in_cwd: n.in_cwd@ })
}

impl View for Image {
    type V = Opened;

    open spec fn view(&self) -> Opened {
        Opened {
            canonical: self.canonical@,
            needed: needs(self.needed@),
            dirs: util::strings(self.dirs@),
            deps: self.deps@,
        }
    }
}

impl View for Level {
    type V = Search;

    open spec fn view(&self) -> Search {
        Search {
            places: util::strings(self.places@),
            k: self.k as int,
            absolute: self.absolute,
            image: match self.image { Some(i) => Some(i@), None => None },
        }
    }
}

pub open spec fn searches(s: Seq<Level>) -> Seq<Search> {
    s.map_values(|l: Level| l@)
}

pub open spec fn known(s: Seq<RegistryEntry>) -> Seq<Known> {
    s.map_values(|e: RegistryEntry| Known { id: e.id, canonical: e.canonical_file_path@, alive: e.alive })
}

impl View for Loading {
    type V = Load;

    open spec fn view(&self) -> Load {
        Load {
            modules: known(self.registry.modules@),
            in_progress: util::strings(self.registry.in_progress@),
            levels: searches(self.levels@),
            phase: self.phase,
        }
    }
}

/// The first module from `i` on that is held and has a canonical path.
pub open spec fn find_known(m: Seq<Known>, i: int, canonical: Seq<u8>) -> Option<u64>
    decreases m.len() - i,
{
    if i < 0 || i >= m.len() {
        None
    } else if m[i].alive && m[i].canonical == canonical {
        Some(m[i].id)
    } else {
        find_known(m, i + 1, canonical)
    }
}

proof fn lemma_find_known(m: Seq<RegistryEntry>, i: int, canonical: Seq<u8>)
    requires
        0 <= i,
    ensures
        find_known(known(m), i, canonical) == loader::find_loaded(m, i, canonical),
    decreases m.len() - i,
{
    if i < m.len() {
        lemma_find_known(m, i + 1, canonical);
    }
}

/// A module that is found is registered.
proof fn lemma_found_is_registered(m: Seq<Known>, i: int, canonical: Seq<u8>)
    requires
        0 <= i,
        find_known(m, i, canonical) is Some,
    ensures
        registered(m, find_known(m, i, canonical)->0),
    decreases m.len() - i,
{
    if m[i].alive && m[i].canonical == canonical {
        assert(m[i].id == find_known(m, i, canonical)->0);
    } else {
        lemma_found_is_registered(m, i + 1, canonical);
    }
}

pub open spec fn registered(m: Seq<Known>, id: u64) -> bool {
    exists|i: int| 0 <= i < m.len() && (#[trigger] m[i]).id == id
}

/// The search for an image that an opened one needs, or that was asked for.
pub open spec fn new_search(n: Need, dirs: Seq<Seq<u8>>) -> Search {
    Search {
        places: loader::search_order(n.name, dirs, n.in_cwd),
        k: 0,
        absolute: loader::is_absolute(n.name),
        image: None,
    }
}

/// How a search goes on after one attempt.
pub open spec fn search_step(l: Search, outcome: Result<u64, KError>) -> SearchStep {
    if l.absolute || outcome is Ok {
        SearchStep::Done(outcome)
    } else if l.k + 1 == l.places.len() {
        SearchStep::Done(Err(KError::NotFound))
    } else if outcome == Err::<u64, KError>(KError::NotFound) || outcome == Err::<u64, KError>(KError::InvalidArgument) {
        SearchStep::Next
    } else {
        SearchStep::Done(outcome)
    }
}

/// The dependencies of an opened image are registered modules, no more of them than it needs.
pub open spec fn opened_sound(m: Seq<Known>, o: Opened) -> bool {
    &&& o.deps.len() <= o.needed.len()
    &&& forall|i: int| 0 <= i < o.deps.len() ==> registered(m, #[trigger] o.deps[i])
}

impl Load {
    pub open spec fn top(self) -> Search {
        self.levels.last()
    }

    /// The place that is being tried.
    pub open spec fn place(self) -> Seq<u8> {
        self.top().places[self.top().k]
    }

    /// What holds whatever the phase: the places whose load is under way are those of the opened
    /// images, outermost first, and none is there twice.
    pub open spec fn chain_sound(self, opened: int) -> bool {
        &&& self.in_progress.len() == opened
        &&& opened <= self.levels.len()
        &&& forall|i: int| 0 <= i < self.levels.len() ==> 0 <= (#[trigger] self.levels[i]).k < self.levels[i].places.len()
        &&& forall|i: int| 0 <= i < opened ==> #[trigger] self.in_progress[i] == self.levels[i].places[self.levels[i].k]
        &&& self.in_progress.no_duplicates()
        &&& forall|i: int| 0 <= i < self.levels.len() - 1 ==> (#[trigger] self.levels[i]).image is Some
            && self.levels[i].image->0.deps.len() < self.levels[i].image->0.needed.len()
        &&& forall|i: int| 0 <= i < self.levels.len() && (#[trigger] self.levels[i]).image is Some
            ==> opened_sound(self.modules, self.levels[i].image->0)
    }

    pub open spec fn well_formed(self) -> bool {
        match self.phase {
            Phase::Resolve => {
                &&& self.levels.len() > 0
                &&& self.top().image is None
                &&& self.chain_sound(self.levels.len() - 1)
            },
            Phase::Open => {
                &&& self.levels.len() > 0
                &&& self.top().image is None
                &&& self.chain_sound(self.levels.len() as int)
            },
            Phase::Finish => {
                &&& self.levels.len() > 0
                &&& self.top().image matches Some(o) && o.deps.len() == o.needed.len()
                &&& self.chain_sound(self.levels.len() as int)
            },
            Phase::Done(r) => {
                &&& self.levels.len() == 0
                &&& self.in_progress.len() == 0
                &&& r matches Ok(id) ==> registered(self.modules, id)
            },
        }
    }

    pub open spec fn with_top(self, l: Search) -> Load {
        Load { levels: self.levels.drop_last().push(l), ..self }
    }

    /// An opened image with some of its dependencies loaded: the next one is looked for, or the image
    /// is finished.
    pub open spec fn advanced(self) -> Load {
        let o = self.top().image->0;
        if o.deps.len() == o.needed.len() {
            Load { phase: Phase::Finish, ..self }
        } else {
            Load {
                levels: self.levels.push(new_search(o.needed[o.deps.len() as int], o.dirs)),
                phase: Phase::Resolve,
                ..self
            }
        }
    }

    /// The innermost search has an outcome for its place. A dependency that cannot be loaded ends the
    /// load of the image that needs it.
    pub open spec fn settled(self, outcome: Result<u64, KError>) -> Load
        decreases self.levels.len(),
    {
        if self.levels.len() == 0 {
            self
        } else {
            let l = self.top();
            match search_step(l, outcome) {
                SearchStep::Next => Load { phase: Phase::Resolve, ..self.with_top(Search { k: l.k + 1, ..l }) },
                SearchStep::Done(r) => {
                    let up = Load { levels: self.levels.drop_last(), ..self };
                    if up.levels.len() == 0 {
                        Load { phase: Phase::Done(r), ..up }
                    } else {
                        let parent = up.top();
                        let o = parent.image->0;
                        match r {
                            Ok(id) => up.with_top(
                                Search { image: Some(Opened { deps: o.deps.push(id), ..o }), ..parent },
                            ).advanced(),
                            Err(e) => Load {
                                in_progress: up.in_progress.drop_last(),
                                ..up.with_top(Search { image: None, ..parent })
                            }.settled(Err(e)),
                        }
                    }
                },
            }
        }
    }

    /// The canonical path of the place is known: a module loaded from it is taken as it is, and an
    /// image cannot be part of its own dependencies.
    pub open spec fn resolved(self, canonical: Seq<u8>) -> Load {
        match find_known(self.modules, 0, canonical) {
            Some(id) => self.settled(Ok(id)),
            None => if self.in_progress.contains(self.place()) {
                self.settled(Err(KError::CircularDependency))
            } else {
                Load { in_progress: self.in_progress.push(self.place()), phase: Phase::Open, ..self }
            },
        }
    }

    pub open spec fn opened(self, outcome: Result<Opened, KError>) -> Load {
        match outcome {
            Ok(o) => self.with_top(Search { image: Some(o), ..self.top() }).advanced(),
            Err(e) => Load { in_progress: self.in_progress.drop_last(), ..self }.settled(Err(e)),
        }
    }

    /// The image is set up and registered, or could not be.
    pub open spec fn finished(self, outcome: Result<u64, KError>) -> Load {
        let o = self.top().image->0;
        let s = Load {
            in_progress: self.in_progress.drop_last(),
            ..self.with_top(Search { image: None, ..self.top() })
        };
        match outcome {
            Ok(id) => Load {
                modules: self.modules.push(Known { id, canonical: o.canonical, alive: true }),
                ..s
            }.settled(outcome),
            Err(e) => s.settled(outcome),
        }
    }
}

/// There is always a place to try.
proof fn lemma_places(n: Need, dirs: Seq<Seq<u8>>)
    ensures
        new_search(n, dirs).places.len() > 0,
{
}

proof fn lemma_advanced(s: Load)
    requires
        s.levels.len() > 0,
        s.top().image is Some,
        s.chain_sound(s.levels.len() as int),
    ensures
        s.advanced().well_formed(),
{
    let o = s.top().image->0;
    let t = s.advanced();
    assert(opened_sound(s.modules, s.levels[s.levels.len() - 1].image->0));
    if o.deps.len() < o.needed.len() {
        lemma_places(o.needed[o.deps.len() as int], o.dirs);
        assert forall|i: int| 0 <= i < t.levels.len() - 1 implies (#[trigger] t.levels[i]).image is Some
            && t.levels[i].image->0.deps.len() < t.levels[i].image->0.needed.len() by {
            assert(t.levels[i] == s.levels[i]);
        }
        assert forall|i: int| 0 <= i < t.levels.len() - 1 implies #[trigger] t.in_progress[i]
            == t.levels[i].places[t.levels[i].k] by {
            assert(s.in_progress[i] == s.levels[i].places[s.levels[i].k]);
        }
    }
}

proof fn lemma_settled(s: Load, outcome: Result<u64, KError>)
    requires
        s.levels.len() > 0,
        s.top().image is None,
        s.chain_sound(s.levels.len() - 1),
        outcome matches Ok(id) ==> registered(s.modules, id),
    ensures
        s.settled(outcome).well_formed(),
    decreases s.levels.len(),
{
    let l = s.top();
    let n = s.levels.len() as int;
    assert(l == s.levels[n - 1]);
    match search_step(l, outcome) {
        SearchStep::Next => {
            let t = s.settled(outcome);
            assert(t.levels.last() == Search { k: l.k + 1, ..l });
            assert forall|i: int| 0 <= i < t.levels.len() - 1 implies #[trigger] t.levels[i] == s.levels[i] by {}
            assert forall|i: int| 0 <= i < n - 1 implies #[trigger] t.in_progress[i]
                == t.levels[i].places[t.levels[i].k] by {
                assert(s.in_progress[i] == s.levels[i].places[s.levels[i].k]);
            }
        },
        SearchStep::Done(r) => {
            let up = Load { levels: s.levels.drop_last(), ..s };
            if up.levels.len() > 0 {
                let parent = up.top();
                assert(parent == s.levels[n - 2]);
                let o = parent.image->0;
                match r {
                    Ok(id) => {
                        lemma_dependency_sound(s, id);
                        lemma_advanced(
                            up.with_top(Search { image: Some(Opened { deps: o.deps.push(id), ..o }), ..parent }),
                        );
                    },
                    Err(e) => {
                        lemma_unwound(s);
                        lemma_settled(
                            Load {
                                in_progress: up.in_progress.drop_last(),
                                ..up.with_top(Search { image: None, ..parent })
                            },
                            Err(e),
                        );
                    },
                }
            }
        },
    }
}

/// With the outcome of a dependency the load of the image that needs it goes on.
proof fn lemma_dependency_sound(s: Load, id: u64)
    requires
        s.levels.len() > 1,
        s.chain_sound(s.levels.len() - 1),
        registered(s.modules, id),
    ensures
        ({
            let up = Load { levels: s.levels.drop_last(), ..s };
            let parent = up.top();
            let o = parent.image->0;
            let t = up.with_top(Search { image: Some(Opened { deps: o.deps.push(id), ..o }), ..parent });
            t.levels.len() > 0 && t.top().image is Some && t.chain_sound(t.levels.len() as int)
        }),
{
    let n = s.levels.len() as int;
    let up = Load { levels: s.levels.drop_last(), ..s };
    let parent = up.top();
    assert(parent == s.levels[n - 2]);
    let o = parent.image->0;
    assert(opened_sound(s.modules, o));
    let o2 = Opened { deps: o.deps.push(id), ..o };
    let t = up.with_top(Search { image: Some(o2), ..parent });
    assert(t.levels.len() == n - 1);
    assert forall|i: int| 0 <= i < n - 2 implies #[trigger] t.levels[i] == s.levels[i] by {}
    assert(opened_sound(t.modules, o2)) by {
        assert forall|i: int| 0 <= i < o2.deps.len() implies registered(t.modules, #[trigger] o2.deps[i]) by {
            if i < o.deps.len() {
                assert(o2.deps[i] == o.deps[i]);
            }
        }
    }
    assert forall|i: int| 0 <= i < n - 1 implies #[trigger] t.in_progress[i] == t.levels[i].places[t.levels[i].k] by {
        assert(s.in_progress[i] == s.levels[i].places[s.levels[i].k]);
    }
}

/// Without its dependency the image that needs it is given up.
proof fn lemma_unwound(s: Load)
    requires
        s.levels.len() > 1,
        s.chain_sound(s.levels.len() - 1),
    ensures
        ({
            let up = Load { levels: s.levels.drop_last(), ..s };
            let t = Load {
                in_progress: up.in_progress.drop_last(),
                ..up.with_top(Search { image: None, ..up.top() })
            };
            t.levels.len() > 0 && t.top().image is None && t.chain_sound(t.levels.len() - 1)
        }),
{
    let n = s.levels.len() as int;
    let up = Load { levels: s.levels.drop_last(), ..s };
    assert(up.top() == s.levels[n - 2]);
    let t = Load { in_progress: up.in_progress.drop_last(), ..up.with_top(Search { image: None, ..up.top() }) };
    assert forall|i: int| 0 <= i < n - 2 implies #[trigger] t.levels[i] == s.levels[i] by {}
    assert forall|i: int| 0 <= i < n - 2 implies #[trigger] t.in_progress[i] == t.levels[i].places[t.levels[i].k] by {
        assert(s.in_progress[i] == s.levels[i].places[s.levels[i].k]);
    }
    assert(t.in_progress.no_duplicates());
}

proof fn lemma_top_opened(s: Load, o: Opened)
    requires
        s.well_formed(),
        s.phase is Open,
        o.deps.len() == 0,
    ensures
        ({
            let t = s.with_top(Search { image: Some(o), ..s.top() });
            t.levels.len() > 0 && t.top().image is Some && t.chain_sound(t.levels.len() as int)
        }),
{
    let n = s.levels.len() as int;
    let t = s.with_top(Search { image: Some(o), ..s.top() });
    assert forall|i: int| 0 <= i < n - 1 implies #[trigger] t.levels[i] == s.levels[i] by {}
    assert(s.top() == s.levels[n - 1]);
    assert forall|i: int| 0 <= i < n implies #[trigger] t.in_progress[i] == t.levels[i].places[t.levels[i].k] by {
        assert(s.in_progress[i] == s.levels[i].places[s.levels[i].k]);
    }
}

proof fn lemma_closed(s: Load)
    requires
        s.levels.len() > 0,
        s.chain_sound(s.levels.len() as int),
    ensures
        (Load { in_progress: s.in_progress.drop_last(), ..s }).chain_sound(s.levels.len() - 1),
{
    let t = Load { in_progress: s.in_progress.drop_last(), ..s };
    assert forall|i: int| 0 <= i < s.levels.len() - 1 implies #[trigger] t.in_progress[i]
        == t.levels[i].places[t.levels[i].k] by {
        assert(s.in_progress[i] == s.levels[i].places[s.levels[i].k]);
    }
    assert(t.in_progress.no_duplicates());
}

proof fn lemma_top_closed(s: Load)
    requires
        s.levels.len() > 0,
        s.chain_sound(s.levels.len() as int),
    ensures
        ({
            let t = Load {
                in_progress: s.in_progress.drop_last(),
                ..s.with_top(Search { image: None, ..s.top() })
            };
            t.levels.len() > 0 && t.top().image is None && t.chain_sound(t.levels.len() - 1)
        }),
{
    let n = s.levels.len() as int;
    let t = Load { in_progress: s.in_progress.drop_last(), ..s.with_top(Search { image: None, ..s.top() }) };
    assert(s.top() == s.levels[n - 1]);
    assert forall|i: int| 0 <= i < n - 1 implies #[trigger] t.levels[i] == s.levels[i] by {}
    assert forall|i: int| 0 <= i < n - 1 implies #[trigger] t.in_progress[i] == t.levels[i].places[t.levels[i].k] by {
        assert(s.in_progress[i] == s.levels[i].places[s.levels[i].k]);
    }
    assert(t.in_progress.no_duplicates());
}

/// One more module takes none away.
proof fn lemma_registered_more(s: Load, k: Known)
    requires
        s.levels.len() > 0,
        s.chain_sound(s.levels.len() - 1),
    ensures
        (Load { modules: s.modules.push(k), ..s }).chain_sound(s.levels.len() - 1),
        registered(s.modules.push(k), k.id),
{
    let m = s.modules.push(k);
    let t = Load { modules: m, ..s };
    assert(m[s.modules.len() as int].id == k.id);
    assert forall|id: u64| registered(s.modules, id) implies #[trigger] registered(m, id) by {
        let i = choose|i: int| 0 <= i < s.modules.len() && (#[trigger] s.modules[i]).id == id;
        assert(m[i].id == id);
    }
    assert forall|i: int| 0 <= i < t.levels.len() && (#[trigger] t.levels[i]).image is Some implies opened_sound(
        m, t.levels[i].image->0) by {
        assert(opened_sound(s.modules, s.levels[i].image->0));
    }
    assert forall|i: int| 0 <= i < t.levels.len() - 1 implies #[trigger] t.in_progress[i]
        == t.levels[i].places[t.levels[i].k] by {
        assert(s.in_progress[i] == s.levels[i].places[s.levels[i].k]);
    }
}

impl Loading {
    /// Begins the load of an image.
    pub fn load_image(registry: LoadRegistry, name: &Needed) -> (r: Loading)
        requires
            registry.in_progress@.len() == 0,
        ensures
            r@ == (Load {
                modules: known(registry.modules@),
                in_progress: Seq::empty(),
                levels: seq![new_search(Need { name: name.name@, in_cwd: name.in_cwd@ }, Seq::empty())],
                phase: Phase::Resolve,
            }),
            r@.well_formed(),
    {
        let dirs: Vec<Vec<u8>> = Vec::new();
        let places: Vec<Vec<u8>> = candidate_paths(&name.name, &dirs, &name.in_cwd);
        let absolute: bool = name.name.len() > 0 && name.name[0] == 0x2f;
        let l: Level = Level { places, k: 0, absolute, image: None };
        assert(util::strings(dirs@) =~= Seq::empty());
        let mut levels: Vec<Level> = Vec::new();
        levels.push(l);
        let r: Loading = Loading { registry, levels, phase: Phase::Resolve };
        assert(r@.levels =~= seq![l@]);
        assert(r@.in_progress =~= Seq::empty());
        r
    }

    /// The place that is being tried.
    pub fn place(&self) -> (r: Vec<u8>)
        requires
            self@.well_formed(),
            !(self@.phase is Done),
        ensures
            r@ == self@.place(),
    {
        let top: usize = self.levels.len() - 1;
        assert(self@.levels[top as int] == self.levels@[top as int]@);
        assert(self@.levels[top as int].k < self@.levels[top as int].places.len());
        bytes_copy(&self.levels[top].places[self.levels[top].k])
    }

    /// The modules that the image to be finished is relocated against, in the order in which it
    /// needs them.
    pub fn dependencies(&self) -> (r: Vec<u64>)
        requires
            self@.well_formed(),
            self@.phase is Finish,
        ensures
            r@ == self@.top().image->0.deps,
    {
        let top: usize = self.levels.len() - 1;
        assert(self@.levels[top as int] == self.levels@[top as int]@);
        let mut out: Vec<u64> = Vec::new();
        match &self.levels[top].image {
            Some(o) => {
                let mut i: usize = 0;
                while i < o.deps.len()
                    invariant
                        i <= o.deps@.len(),
                        out@ == o.deps@.take(i as int),
                    decreases o.deps@.len() - i,
                {
                    assert(o.deps@.take(i + 1) =~= o.deps@.take(i as int).push(o.deps@[i as int]));
                    out.push(o.deps[i]);
                    i = i + 1;
                }
                assert(o.deps@.take(i as int) =~= o.deps@);
            },
            None => {},
        }
        out
    }

    fn advance(&mut self)
        requires
            old(self)@.levels.len() > 0,
            old(self)@.top().image is Some,
            old(self)@.chain_sound(old(self)@.levels.len() as int),
        ensures
            final(self)@ == old(self)@.advanced(),
            final(self)@.well_formed(),
    {
        proof {
            lemma_advanced(self@);
        }
        let ghost s0 = self@;
        let top: usize = self.levels.len() - 1;
        assert(s0.levels[top as int] == self.levels@[top as int]@);
        let next: Option<Level> = match &self.levels[top].image {
            Some(o) => {
                if o.deps.len() >= o.needed.len() {
                    None
                } else {
                    let n: &Needed = &o.needed[o.deps.len()];
                    assert(needs(o.needed@)[o.deps@.len() as int] == (Need { name: n.name@, in_cwd: n.in_cwd@ }));
                    let places: Vec<Vec<u8>> = candidate_paths(&n.name, &o.dirs, &n.in_cwd);
                    let absolute: bool = n.name.len() > 0 && n.name[0] == 0x2f;
                    Some(Level { places, k: 0, absolute, image: None })
                }
            },
            None => None,
        };
        assert(opened_sound(s0.modules, s0.levels[top as int].image->0));
        match next {
            Some(l) => {
                self.levels.push(l);
                self.phase = Phase::Resolve;
                assert(searches(self.levels@) =~= s0.levels.push(l@));
            },
            None => {
                self.phase = Phase::Finish;
            },
        }
    }

    fn settle(&mut self, outcome: Result<u64, KError>)
        requires
            old(self)@.levels.len() > 0,
            old(self)@.top().image is None,
            old(self)@.chain_sound(old(self)@.levels.len() - 1),
            outcome matches Ok(id) ==> registered(old(self)@.modules, id),
        ensures
            final(self)@ == old(self)@.settled(outcome),
            final(self)@.well_formed(),
        decreases old(self)@.levels.len(),
    {
        proof {
            lemma_settled(self@, outcome);
        }
        let ghost s0 = self@;
        let top: usize = self.levels.len() - 1;
        let ghost l = s0.top();
        assert(s0.levels[top as int] == self.levels@[top as int]@);
        assert(l == s0.levels[top as int]);
        let step: SearchStep = after_attempt(
            self.levels[top].absolute,
            self.levels[top].k,
            self.levels[top].places.len(),
            outcome,
        );
        assert(step == search_step(l, outcome));
        match step {
            SearchStep::Next => {
                let k: usize = self.levels[top].k;
                self.levels[top].k = k + 1;
                self.phase = Phase::Resolve;
                assert(self.levels@[top as int]@ == (Search { k: l.k + 1, ..l }));
                assert(searches(self.levels@) =~= s0.levels.drop_last().push(Search { k: l.k + 1, ..l }));
            },
            SearchStep::Done(r) => {
                let _ = self.levels.pop();
                assert(searches(self.levels@) =~= s0.levels.drop_last());
                if self.levels.len() == 0 {
                    self.phase = Phase::Done(r);
                    return;
                }
                let ghost up = Load { levels: s0.levels.drop_last(), ..s0 };
                let ghost parent = up.top();
                let ghost o = parent.image->0;
                assert(parent == s0.levels[top - 1]);
                let last: usize = top - 1;
                assert(self.levels@[last as int]@ == parent);
                match r {
                    Ok(id) => {
                        let mut image: Option<Image> = None;
                        std::mem::swap(&mut image, &mut self.levels[last].image);
                        match image {
                            Some(mut i) => {
                                i.deps.push(id);
                                assert(i@ == (Opened { deps: o.deps.push(id), ..o }));
                                self.levels[last].image = Some(i);
                            },
                            None => {},
                        }
                        let ghost t = up.with_top(
                            Search { image: Some(Opened { deps: o.deps.push(id), ..o }), ..parent },
                        );
                        assert(self.levels@[last as int]@ == t.top());
                        assert(searches(self.levels@) =~= t.levels);
                        proof {
                            lemma_dependency_sound(s0, id);
                        }
                        self.advance();
                    },
                    Err(e) => {
                        self.levels[last].image = None;
                        self.registry.end_load();
                        let ghost t = Load {
                            in_progress: up.in_progress.drop_last(),
                            ..up.with_top(Search { image: None, ..parent })
                        };
                        assert(self.levels@[last as int]@ == t.top());
                        assert(searches(self.levels@) =~= t.levels);
                        assert(self@.in_progress =~= t.in_progress);
                        proof {
                            lemma_unwound(s0);
                        }
                        assert(self@ =~= t);
                        self.settle(Err(e));
                    },
                }
            },
        }
    }

    /// Takes in the canonical path of the place.
    pub fn on_resolved(&mut self, canonical: &Vec<u8>)
        requires
            old(self)@.well_formed(),
            old(self)@.phase is Resolve,
        ensures
            final(self)@ == old(self)@.resolved(canonical@),
            final(self)@.well_formed(),
    {
        let ghost s0 = self@;
        let here: Vec<u8> = self.place();
        proof {
            lemma_find_known(self.registry.modules@, 0, canonical@);
            if find_known(s0.modules, 0, canonical@) is Some {
                lemma_found_is_registered(s0.modules, 0, canonical@);
            }
        }
        match self.registry.begin_load(&here, canonical) {
            LoadStart::Cached(id) => {
                assert(self@ =~= s0);
                self.settle(Ok(id));
            },
            LoadStart::Circular => {
                assert(self@ =~= s0);
                self.settle(Err(KError::CircularDependency));
            },
            LoadStart::Begin => {
                self.phase = Phase::Open;
                let ghost n = s0.levels.len() as int;
                assert(self@.in_progress == s0.in_progress.push(s0.place()));
                assert forall|i: int| 0 <= i < n implies #[trigger] self@.in_progress[i]
                    == self@.levels[i].places[self@.levels[i].k] by {
                    if i < n - 1 {
                        assert(s0.in_progress[i] == s0.levels[i].places[s0.levels[i].k]);
                    }
                }
            },
        }
    }

    /// Takes in what came of opening the place: the image, with none of its dependencies loaded yet,
    /// or why it could not be had.
    pub fn on_opened(&mut self, outcome: Result<Image, KError>)
        requires
            old(self)@.well_formed(),
            old(self)@.phase is Open,
            outcome matches Ok(i) ==> i.deps@.len() == 0,
        ensures
            final(self)@ == old(self)@.opened(match outcome { Ok(i) => Ok(i@), Err(e) => Err(e) }),
            final(self)@.well_formed(),
    {
        let ghost s0 = self@;
        let top: usize = self.levels.len() - 1;
        assert(s0.levels[top as int] == self.levels@[top as int]@);
        match outcome {
            Ok(i) => {
                let ghost o = i@;
                self.levels[top].image = Some(i);
                let ghost t = s0.with_top(Search { image: Some(o), ..s0.top() });
                assert(self.levels@[top as int]@ == t.top());
                assert(searches(self.levels@) =~= t.levels);
                proof {
                    lemma_top_opened(s0, o);
                }
                assert(self@ =~= t);
                self.advance();
            },
            Err(e) => {
                self.registry.end_load();
                let ghost t = Load { in_progress: s0.in_progress.drop_last(), ..s0 };
                assert(self@ =~= t);
                proof {
                    lemma_closed(s0);
                }
                self.settle(Err(e));
            },
        }
    }

    /// Takes in what came of setting the image up.
    pub fn on_finished(&mut self, outcome: Result<u64, KError>)
        requires
            old(self)@.well_formed(),
            old(self)@.phase is Finish,
        ensures
            final(self)@ == old(self)@.finished(outcome),
            final(self)@.well_formed(),
    {
        let ghost s0 = self@;
        let top: usize = self.levels.len() - 1;
        assert(s0.levels[top as int] == self.levels@[top as int]@);
        let mut image: Option<Image> = None;
        std::mem::swap(&mut image, &mut self.levels[top].image);
        self.registry.end_load();
        let ghost s = Load {
            in_progress: s0.in_progress.drop_last(),
            ..s0.with_top(Search { image: None, ..s0.top() })
        };
        assert(self.levels@[top as int]@ == s.top());
        assert(searches(self.levels@) =~= s.levels);
        assert(self@ =~= s);
        proof {
            lemma_top_closed(s0);
        }
        match outcome {
            Ok(id) => {
                match image {
                    Some(i) => {
                        let ghost k = Known { id, canonical: i.canonical@, alive: true };
                        self.registry.add_module(id, i.canonical);
                        assert(self@.modules =~= s0.modules.push(k));
                        proof {
                            lemma_registered_more(s, k);
                        }
                        assert(self@ =~= (Load { modules: s0.modules.push(k), ..s }));
                        self.settle(outcome);
                    },
                    None => {},
                }
            },
            Err(_) => {
                self.settle(outcome);
            },
        }
    }
}

/// An image is finished only when everything it needs is loaded and registered.
pub proof fn law_dependencies_first(s: Load, i: int)
    requires
        s.well_formed(),
        s.phase is Finish,
        0 <= i < s.top().image->0.needed.len(),
    ensures
        s.top().image->0.deps.len() == s.top().image->0.needed.len(),
        registered(s.modules, s.top().image->0.deps[i]),
{
    assert(s.top() == s.levels[s.levels.len() - 1]);
    assert(opened_sound(s.modules, s.top().image->0));
}

/// An image is never opened again while its own load is under way: where its dependencies lead back
/// to it by an absolute path, the image that asks for it is given up with an error.
pub proof fn law_cycle_refused(s: Load, canonical: Seq<u8>)
    requires
        s.well_formed(),
        s.phase is Resolve,
    ensures
        s.resolved(canonical).phase is Open ==> !s.in_progress.contains(s.place()),
        ({
            &&& find_known(s.modules, 0, canonical) is None
            &&& s.in_progress.contains(s.place())
            &&& s.top().absolute
        }) ==> s.levels.len() > 1 && ({
            let up = Load { levels: s.levels.drop_last(), ..s };
            s.resolved(canonical) == (Load {
                in_progress: up.in_progress.drop_last(),
                ..up.with_top(Search { image: None, ..up.top() })
            }).settled(Err(KError::CircularDependency))
        }),
{
    if find_known(s.modules, 0, canonical) is Some {
        lemma_found_is_registered(s.modules, 0, canonical);
        lemma_never_opens(s, Ok(find_known(s.modules, 0, canonical)->0));
    } else if s.in_progress.contains(s.place()) {
        lemma_never_opens(s, Err(KError::CircularDependency));
    }
}

proof fn lemma_never_opens(s: Load, outcome: Result<u64, KError>)
    requires
        s.levels.len() > 0,
    ensures
        !(s.settled(outcome).phase is Open),
    decreases s.levels.len(),
{
    match search_step(s.top(), outcome) {
        SearchStep::Next => {},
        SearchStep::Done(r) => {
            let up = Load { levels: s.levels.drop_last(), ..s };
            if up.levels.len() > 0 {
                match r {
                    Ok(_) => {},
                    Err(e) => {
                        lemma_never_opens(
                            Load {
                                in_progress: up.in_progress.drop_last(),
                                ..up.with_top(Search { image: None, ..up.top() })
                            },
                            Err(e),
                        );
                    },
                }
            }
        },
    }
}

}
