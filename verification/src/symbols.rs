//! A small string interner: each distinct string is stored once and named by
//! a compact, copyable `Symbol`.
use vstd::hash_map::StringHashMap;
use vstd::prelude::*;

verus! {

/// A compact identifier for an interned string.
///
/// This is a small, copyable type (backed by `u32`) so it can be cheaply
/// stored in other data structures.
#[derive(Debug, Clone, Copy, PartialEq, Eq, Hash, Default)]
pub struct Symbol(u32);

impl Symbol {
    /// The position of the symbol's string in its interner's table.
    pub closed spec fn id(self) -> nat {
        self.0 as nat
    }

    /// Two symbols with the same position are the same symbol.
    pub proof fn lemma_same_id(self, other: Symbol)
        ensures
            self.id() == other.id() ==> self == other,
    {
    }

    /// The symbol's number, as printed in its textual form `#<n>`.
    pub fn number(self) -> (r: u32)
        ensures
            r == self.id(),
    {
        self.0
    }
}

/// The table that results from interning `s` into `table`: unchanged when `s`
/// is already present, otherwise `s` appended at the end.
pub open spec fn interned(table: Seq<Seq<char>>, s: Seq<char>) -> Seq<Seq<char>> {
    if table.contains(s) {
        table
    } else {
        table.push(s)
    }
}

/// The position of `s` in `table` (meaningful when `s` occurs in `table`).
pub open spec fn position_of(table: Seq<Seq<char>>, s: Seq<char>) -> int {
    table.index_of(s)
}

/// A very small string interner for application-wide symbols.
///
/// Not thread-safe: the application keeps a single `Symbols` instance and
/// passes mutable access where needed. Interning returns a `Symbol` which can
/// be cheaply copied and compared.
pub struct Symbols {
    map: StringHashMap<Symbol>,
    vec: Vec<String>,
}

impl View for Symbols {
    type V = Seq<Seq<char>>;

    /// The interned strings, in the order they were first interned.
    closed spec fn view(&self) -> Seq<Seq<char>> {
        self.vec@.map_values(|s: String| s@)
    }
}

impl Symbols {
    /// The interner's internal consistency: the lookup map holds exactly the
    /// strings of the table, each mapped to its own position.
    pub closed spec fn wf(&self) -> bool {
        &&& self.vec@.len() <= 0x1_0000_0000
        &&& forall|i: int|
            0 <= i < self.vec@.len() ==> {
                &&& #[trigger] self.map@.contains_key(self.vec@[i]@)
                &&& self.map@[self.vec@[i]@].id() == i
            }
        &&& forall|k: Seq<char>|
            #[trigger] self.map@.contains_key(k) ==> exists|i: int|
                0 <= i < self.vec@.len() && #[trigger] self.vec@[i]@ == k
    }

    /// A well-formed table never holds the same string twice.
    pub proof fn lemma_wf_no_duplicates(&self)
        requires
            self.wf(),
        ensures
            self@.no_duplicates(),
            self@.len() <= 0x1_0000_0000,
    {
        assert forall|i: int, j: int|
            0 <= i < self@.len() && 0 <= j < self@.len() && i != j implies self@[i] != self@[j] by {
            assert(self@[i] == self.vec@[i]@);
            assert(self@[j] == self.vec@[j]@);
            assert(self.map@.contains_key(self.vec@[i]@));
            assert(self.map@.contains_key(self.vec@[j]@));
        }
    }

    /// Create a new empty interner.
    pub fn new() -> (s: Self)
        ensures
            s.wf(),
            s@ == Seq::<Seq<char>>::empty(),
    {
        let s = Symbols { map: StringHashMap::new(), vec: Vec::new() };
        assert(s@ =~= Seq::<Seq<char>>::empty());
        s
    }

    /// The number of distinct strings interned so far.
    pub fn len(&self) -> (n: usize)
        ensures
            n == self@.len(),
    {
        self.vec.len()
    }

    /// Intern `s` and return a `Symbol` referring to the stored string.
    ///
    /// If the string was already interned, the existing `Symbol` is returned;
    /// a new string needs a free 32-bit id.
    pub fn intern(&mut self, s: &str) -> (sym: Symbol)
        requires
            old(self).wf(),
            old(self)@.len() <= u32::MAX || old(self)@.contains(s@),
        ensures
            final(self).wf(),
            final(self)@ == interned(old(self)@, s@),
            final(self)@.no_duplicates(),
            sym.id() == position_of(final(self)@, s@),
            0 <= sym.id() < final(self)@.len(),
            final(self)@[sym.id() as int] == s@,
    {
        proof {
            self.lemma_wf_no_duplicates();
        }
        match self.map.get(s) {
            Some(found) => {
                let sym = *found;
                proof {
                    let i = choose|i: int| 0 <= i < self.vec@.len() && #[trigger] self.vec@[i]@ == s@;
                    assert(self.map@.contains_key(self.vec@[i]@));
                    assert(self@[i] == s@);
                    assert(self@.contains(s@));
                    assert(sym.id() == i);
                    assert(self@[position_of(self@, s@)] == s@);
                }
                return sym;
            },
            None => {},
        }
        proof {
            if self@.contains(s@) {
                let i = choose|i: int| 0 <= i < self@.len() && self@[i] == s@;
                assert(self.vec@[i]@ == s@);
                assert(self.map@.contains_key(self.vec@[i]@));
            }
        }
        assert(self.vec@.len() <= u32::MAX);
        let ghost old_vec = self.vec@;
        let ghost old_view = self@;
        let idx = self.vec.len() as u32;
        let owned: String = s.to_owned();
        let key: String = owned.clone();
        self.vec.push(owned);
        let sym = Symbol(idx);
        self.map.insert(key, sym);
        proof {
            assert(self@ =~= old_view.push(s@));
            assert forall|i: int| 0 <= i < self.vec@.len() implies {
                &&& #[trigger] self.map@.contains_key(self.vec@[i]@)
                &&& self.map@[self.vec@[i]@].id() == i
            } by {
                if i < old_vec.len() {
                    assert(self.vec@[i] == old_vec[i]);
                    assert(old_view[i] == old_vec[i]@);
                    assert(old_vec[i]@ != s@);
                    assert(self.map@.contains_key(self.vec@[i]@));
                    assert(self.map@[self.vec@[i]@].id() == i);
                } else {
                    assert(self.vec@[i]@ == s@);
                    assert(self.map@[s@] == sym);
                }
            }
            assert forall|k: Seq<char>| #[trigger] self.map@.contains_key(k) implies exists|i: int|
                0 <= i < self.vec@.len() && #[trigger] self.vec@[i]@ == k by {
                if k == s@ {
                    assert(self.vec@[old_vec.len() as int]@ == k);
                } else {
                    let i = choose|i: int| 0 <= i < old_vec.len() && #[trigger] old_vec[i]@ == k;
                    assert(self.vec@[i]@ == k);
                }
            }
            self.lemma_wf_no_duplicates();
            assert(self@[old_view.len() as int] == s@);
        }
        sym
    }

    /// Look up the interned string for `symbol`.
    ///
    /// Callers must only request symbols that were previously returned by
    /// `intern` on this interner.
    pub fn resolve(&self, symbol: Symbol) -> (r: &str)
        requires
            symbol.id() < self@.len(),
        ensures
            r@ == self@[symbol.id() as int],
    {
        self.vec[symbol.0 as usize].as_str()
    }
}

impl Clone for Symbols {
    fn clone(&self) -> (c: Self)
        ensures
            self.wf() ==> c.wf() && c@ == self@,
    {
        let mut map: StringHashMap<Symbol> = StringHashMap::new();
        let mut vec: Vec<String> = Vec::new();
        let n = self.vec.len();
        if n as u64 > 0x1_0000_0000u64 {
            return Symbols { map, vec };
        }
        let mut i: usize = 0;
        while i < n
            invariant
                n == self.vec@.len(),
                n <= 0x1_0000_0000,
                i <= n,
                vec@.len() == i,
                forall|j: int| 0 <= j < i ==> #[trigger] vec@[j]@ == self.vec@[j]@,
                self.wf() ==> forall|j: int|
                    0 <= j < i ==> {
                        &&& #[trigger] map@.contains_key(vec@[j]@)
                        &&& map@[vec@[j]@].id() == j
                    },
                forall|k: Seq<char>|
                    #[trigger] map@.contains_key(k) ==> exists|j: int|
                        0 <= j < i && #[trigger] vec@[j]@ == k,
            decreases n - i,
        {
            let s: String = self.vec[i].clone();
            let key: String = self.vec[i].clone();
            let ghost prev = vec@;
            vec.push(s);
            map.insert(key, Symbol(i as u32));
            proof {
                if self.wf() {
                    self.lemma_wf_no_duplicates();
                    assert forall|j: int| 0 <= j < i + 1 implies {
                        &&& #[trigger] map@.contains_key(vec@[j]@)
                        &&& map@[vec@[j]@].id() == j
                    } by {
                        if j < i {
                            assert(vec@[j] == prev[j]);
                            assert(self@[j] == self.vec@[j]@);
                            assert(self@[i as int] == self.vec@[i as int]@);
                        }
                    }
                }
                assert forall|k: Seq<char>| #[trigger] map@.contains_key(k) implies exists|j: int|
                    0 <= j < i + 1 && #[trigger] vec@[j]@ == k by {
                    if k == self.vec@[i as int]@ {
                        assert(vec@[i as int]@ == k);
                    } else {
                        let j = choose|j: int| 0 <= j < i && #[trigger] prev[j]@ == k;
                        assert(vec@[j] == prev[j]);
                    }
                }
            }
            i = i + 1;
        }
        let c = Symbols { map, vec };
        proof {
            assert(c@ =~= self@);
        }
        c
    }
}

impl Default for Symbols {
    fn default() -> (s: Self)
        ensures
            s.wf(),
            s@ == Seq::<Seq<char>>::empty(),
    {
        Symbols::new()
    }
}

/// Interning a string that is already present changes nothing and gives back
/// the same symbol: interning is idempotent.
pub proof fn law_intern_idempotent(table: Seq<Seq<char>>, s: Seq<char>)
    requires
        table.no_duplicates(),
    ensures
        interned(interned(table, s), s) == interned(table, s),
        position_of(interned(interned(table, s), s), s) == position_of(interned(table, s), s),
{
    let t = interned(table, s);
    if !table.contains(s) {
        assert(t[table.len() as int] == s);
        assert(t.contains(s));
    }
}

/// Resolving the symbol returned by `intern` gives back the interned string.
pub proof fn law_resolve_after_intern(table: Seq<Seq<char>>, s: Seq<char>)
    ensures
        0 <= position_of(interned(table, s), s) < interned(table, s).len(),
        interned(table, s)[position_of(interned(table, s), s)] == s,
{
    let t = interned(table, s);
    if !table.contains(s) {
        assert(t[table.len() as int] == s);
    }
    assert(t.contains(s));
}

/// Interning never changes the symbol of a string interned earlier, and
/// distinct strings always get distinct symbols.
pub proof fn law_symbols_stable_and_distinct(table: Seq<Seq<char>>, s: Seq<char>, a: Seq<char>, b: Seq<char>)
    requires
        table.no_duplicates(),
        table.contains(a),
        table.contains(b),
        a != b,
    ensures
        position_of(interned(table, s), a) == position_of(table, a),
        position_of(table, a) != position_of(table, b),
{
    let t = interned(table, s);
    let i = position_of(table, a);
    assert(table[i] == a);
    assert(t[i] == a);
    assert(t.contains(a));
    let k = position_of(t, a);
    assert(t[k] == a);
    if k != i {
        if k < table.len() {
            assert(table[k] == a);
        } else {
            assert(t[k] == s);
            assert(!table.contains(s));
        }
    }
    let j = position_of(table, b);
    assert(table[j] == b);
}

} // verus!
