//! String interning.
//!
//! File names and function names repeat a lot inside note files. They are stored once in an
//! [`Interner`], and everything else handles them through the cheap [`Symbol`] handle.

use shawshank::ArenaSet;
use vstd::prelude::*;

verus! {

/// A handle to a string held by an [`Interner`].
#[derive(Copy, Clone, PartialEq, Eq, Structural, PartialOrd, Ord, Hash, Debug)]
pub struct Symbol(pub usize);

impl Symbol {
    /// The handle of the string `"<unknown>"`.
    pub open spec fn spec_unknown() -> Symbol {
        Symbol(0)
    }

    /// The handle of the string `"<unknown>"`.
    #[verifier::when_used_as_spec(spec_unknown)]
    pub fn unknown() -> (s: Symbol)
        ensures
            s == Symbol::spec_unknown(),
    {
        Symbol(0)
    }

    /// The position of the string inside its interner.
    pub fn index(self) -> (i: usize)
        ensures
            i == self.0,
    {
        self.0
    }
}

impl Default for Symbol {
    fn default() -> (s: Symbol)
        ensures
            s == Symbol::spec_unknown(),
    {
        Symbol(0)
    }
}

/// The arena that holds the strings. Its contents are known only through [`arena_items`].
#[verifier::external_body]
pub struct Arena {
    set: ArenaSet<Box<str>, usize>,
}

/// The strings held by an arena that nothing was ever removed from, by identifier.
pub uninterp spec fn arena_items(arena: Arena) -> Seq<Seq<char>>;

/// `shawshank::Builder::hash`: a new set holds nothing. With `usize` identifiers the
/// construction cannot fail.
#[verifier::external_body]
fn arena_new() -> (arena: Arena)
    ensures
        arena_items(arena) == Seq::<Seq<char>>::empty(),
{
    Arena { set: shawshank::Builder::<Box<str>, usize>::new().hash().unwrap() }
}

/// `ArenaSet::intern`: a string that the set holds keeps its identifier and nothing changes;
/// a new one is appended and identified by its position. With `usize` identifiers the call
/// cannot fail.
#[verifier::external_body]
fn arena_intern(arena: &mut Arena, s: &str) -> (id: usize)
    ensures
        id < arena_items(*final(arena)).len(),
        arena_items(*final(arena))[id as int] == s@,
        arena_items(*old(arena)).contains(s@) ==> arena_items(*final(arena)) == arena_items(
            *old(arena),
        ),
        !arena_items(*old(arena)).contains(s@) ==> arena_items(*final(arena)) == arena_items(
            *old(arena),
        ).push(s@) && id == arena_items(*old(arena)).len(),
{
    arena.set.intern(s).unwrap()
}

/// `ArenaSet::resolve`: the string with that identifier, or nothing where the identifier is
/// past the end.
#[verifier::external_body]
fn arena_resolve(arena: &Arena, id: usize) -> (r: Option<&str>)
    ensures
        id < arena_items(*arena).len() ==> r is Some && r->0@ == arena_items(*arena)[id as int],
        id >= arena_items(*arena).len() ==> r is None,
{
    arena.set.resolve::<usize, str>(id).ok()
}

/// `ArenaSet::count`: the number of strings held.
#[verifier::external_body]
fn arena_count(arena: &Arena) -> (n: usize)
    ensures
        n == arena_items(*arena).len(),
{
    arena.set.count()
}

/// The error of [`Interner::resolve`]: the handle is past the end of the interner.
#[derive(Copy, Clone, PartialEq, Eq, Structural, Debug)]
pub struct InvalidHandle;

/// The string interner.
pub struct Interner {
    arena: Arena,
}

impl View for Interner {
    type V = Seq<Seq<char>>;

    /// The strings held, by handle.
    closed spec fn view(&self) -> Seq<Seq<char>> {
        arena_items(self.arena)
    }
}

impl Interner {
    /// Handle 0 is `"<unknown>"`, and no string is held twice.
    pub open spec fn wf(&self) -> bool {
        &&& self@.len() >= 1
        &&& self@[0] == "<unknown>"@
        &&& self@.no_duplicates()
    }

    /// What `intern` does to the strings held.
    pub open spec fn spec_intern(items: Seq<Seq<char>>, s: Seq<char>) -> Seq<Seq<char>> {
        if items.contains(s) {
            items
        } else {
            items.push(s)
        }
    }

    /// The handle that `intern` gives a string.
    pub open spec fn spec_handle(items: Seq<Seq<char>>, s: Seq<char>) -> int {
        if items.contains(s) {
            items.index_of(s)
        } else {
            items.len() as int
        }
    }

    /// Creates an interner that holds `"<unknown>"` alone.
    pub fn new() -> (interner: Interner)
        ensures
            interner.wf(),
            interner@ == seq!["<unknown>"@],
    {
        let mut arena = arena_new();
        let _ = arena_intern(&mut arena, "<unknown>");
        let interner = Interner { arena };
        assert(interner@ =~= seq!["<unknown>"@]);
        interner
    }

    /// The number of strings held, `"<unknown>"` included.
    pub fn len(&self) -> (n: usize)
        ensures
            n == self@.len(),
    {
        arena_count(&self.arena)
    }

    /// Inserts a string and returns its handle. A string that is already held keeps its handle.
    pub fn intern(&mut self, s: &str) -> (symbol: Symbol)
        requires
            old(self).wf(),
        ensures
            final(self).wf(),
            final(self)@ == Self::spec_intern(old(self)@, s@),
            symbol.0 == Self::spec_handle(old(self)@, s@),
            final(self)@[symbol.0 as int] == s@,
    {
        let id = arena_intern(&mut self.arena, s);
        proof {
            let items = old(self)@;
            if items.contains(s@) {
                let j = items.index_of(s@);
                assert(items[j] == s@);
                assert(items[id as int] == s@);
            } else {
                assert forall|i: int, j: int|
                    0 <= i < items.len() + 1 && 0 <= j < items.len() + 1 && i != j implies items.push(
                    s@,
                )[i] != items.push(s@)[j] by {
                    if i < items.len() {
                        assert(items.contains(items[i]));
                    }
                    if j < items.len() {
                        assert(items.contains(items[j]));
                    }
                }
            }
        }
        Symbol(id)
    }

    /// The string behind a handle, or `InvalidHandle` for a handle past the end.
    pub fn resolve(&self, symbol: Symbol) -> (r: Result<&str, InvalidHandle>)
        ensures
            symbol.0 < self@.len() ==> r is Ok && r->Ok_0@ == self@[symbol.0 as int],
            symbol.0 >= self@.len() ==> r is Err,
    {
        match arena_resolve(&self.arena, symbol.0) {
            Some(s) => Ok(s),
            None => Err(InvalidHandle),
        }
    }

    /// The handles and strings in insertion order, without handle 0.
    pub fn iter(&self) -> (items: Vec<(Symbol, String)>)
        requires
            self.wf(),
        ensures
            items.len() == self@.len() - 1,
            forall|i: int|
                0 <= i < items.len() ==> (#[trigger] items[i]).0 == Symbol((i + 1) as usize)
                    && items[i].1@ == self@[i + 1],
    {
        let n = self.len();
        let mut items: Vec<(Symbol, String)> = Vec::new();
        let mut i: usize = 1;
        while i < n
            invariant
                1 <= i <= n,
                n == self@.len(),
                items.len() == i - 1,
                forall|k: int|
                    0 <= k < items.len() ==> (#[trigger] items[k]).0 == Symbol((k + 1) as usize)
                        && items[k].1@ == self@[k + 1],
            decreases n - i,
        {
            match arena_resolve(&self.arena, i) {
                Some(s) => {
                    items.push((Symbol(i), s.to_owned()));
                },
                None => {},
            }
            i += 1;
        }
        items
    }
}

impl Default for Interner {
    fn default() -> (interner: Interner)
        ensures
            interner.wf(),
            interner@ == seq!["<unknown>"@],
    {
        Interner::new()
    }
}

/// Equal strings get equal handles, and different strings different ones: interning `a`
/// and then `b` gives one handle exactly when `a` and `b` are the same string.
pub proof fn lemma_intern_equal_strings(items: Seq<Seq<char>>, a: Seq<char>, b: Seq<char>)
    requires
        items.no_duplicates(),
    ensures
        (Interner::spec_handle(items, a) == Interner::spec_handle(
            Interner::spec_intern(items, a),
            b,
        )) <==> a == b,
{
    let after = Interner::spec_intern(items, a);
    let ha = Interner::spec_handle(items, a);
    if items.contains(a) {
        assert(items[ha] == a);
    } else {
        assert(after[ha] == a);
    }
    assert(after.contains(a)) by {
        assert(after[ha] == a);
    }
    assert(after.no_duplicates()) by {
        if !items.contains(a) {
            assert forall|i: int, j: int|
                0 <= i < after.len() && 0 <= j < after.len() && i != j implies after[i]
                != after[j] by {
                if i < items.len() {
                    assert(items.contains(items[i]));
                }
                if j < items.len() {
                    assert(items.contains(items[j]));
                }
            }
        }
    }
    let hb = Interner::spec_handle(after, b);
    if after.contains(b) {
        assert(after[hb] == b);
    }
    if a == b {
        assert(after[hb] == a);
        assert(after[ha] == a);
    }
}

/// Interning a string twice changes nothing the second time.
pub proof fn lemma_intern_idempotent(items: Seq<Seq<char>>, s: Seq<char>)
    requires
        items.no_duplicates(),
    ensures
        Interner::spec_intern(Interner::spec_intern(items, s), s) == Interner::spec_intern(items, s),
        Interner::spec_handle(Interner::spec_intern(items, s), s) == Interner::spec_handle(items, s),
{
    let after = Interner::spec_intern(items, s);
    if !items.contains(s) {
        assert(after[items.len() as int] == s);
        assert(after.contains(s));
        let h = after.index_of(s);
        assert(after[h] == s);
        if h < items.len() {
            assert(items.contains(items[h]));
        }
    }
}

} // verus!
