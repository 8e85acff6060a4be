//! Name tables: the spellings a schema's identifiers are interned against.

use vstd::prelude::*;

verus! {

/// An interned name: its position in the name table it was interned into.
#[derive(Clone, Copy, Debug, PartialEq, Eq, Structural)]
pub struct Identifier(pub usize);

/// A failure to resolve an identifier through a name table.
#[derive(Clone, Copy, Debug, PartialEq, Eq, Structural)]
pub enum NameTableError {
    /// The identifier names no entry of the table.
    UnknownIdentifier(Identifier),
}

/// No spelling occurs twice.
pub open spec fn names_distinct(names: Seq<Seq<char>>) -> bool {
    forall|i: int, j: int|
        0 <= i < names.len() && 0 <= j < names.len() && i != j ==> names[i] != names[j]
}

/// The table after interning one spelling: unchanged when the spelling is already
/// present, otherwise extended by it.
pub open spec fn intern_spec(names: Seq<Seq<char>>, spelling: Seq<char>) -> Seq<Seq<char>> {
    if names.contains(spelling) {
        names
    } else {
        names.push(spelling)
    }
}

/// The table after interning each spelling in turn.
pub open spec fn intern_all(names: Seq<Seq<char>>, spellings: Seq<Seq<char>>) -> Seq<Seq<char>>
    decreases spellings.len(),
{
    if spellings.len() == 0 {
        names
    } else {
        intern_spec(intern_all(names, spellings.drop_last()), spellings.last())
    }
}

/// The identifier `id` resolves to `spelling` in `names`.
pub open spec fn binds(names: Seq<Seq<char>>, id: Identifier, spelling: Seq<char>) -> bool {
    id.0 < names.len() && names[id.0 as int] == spelling
}

/// `longer` keeps every binding of `shorter`.
pub open spec fn extends(longer: Seq<Seq<char>>, shorter: Seq<Seq<char>>) -> bool {
    &&& shorter.len() <= longer.len()
    &&& forall|i: int| 0 <= i < shorter.len() ==> #[trigger] longer[i] == shorter[i]
}

/// Interning never disturbs an existing binding.
pub proof fn lemma_intern_all_extends(names: Seq<Seq<char>>, spellings: Seq<Seq<char>>)
    ensures
        extends(intern_all(names, spellings), names),
    decreases spellings.len(),
{
    if spellings.len() > 0 {
        lemma_intern_all_extends(names, spellings.drop_last());
    }
}

/// Interning keeps a table free of duplicate spellings.
pub proof fn lemma_intern_all_distinct(names: Seq<Seq<char>>, spellings: Seq<Seq<char>>)
    requires
        names_distinct(names),
    ensures
        names_distinct(intern_all(names, spellings)),
    decreases spellings.len(),
{
    if spellings.len() > 0 {
        lemma_intern_all_distinct(names, spellings.drop_last());
    }
}

/// A table built by interning holds the spellings it started with and those interned,
/// and nothing else.
pub proof fn lemma_intern_all_members(names: Seq<Seq<char>>, spellings: Seq<Seq<char>>)
    ensures
        forall|i: int|
            0 <= i < intern_all(names, spellings).len() ==> names.contains(
                #[trigger] intern_all(names, spellings)[i],
            ) || spellings.contains(intern_all(names, spellings)[i]),
        forall|k: int|
            0 <= k < spellings.len() ==> intern_all(names, spellings).contains(
                #[trigger] spellings[k],
            ),
    decreases spellings.len(),
{
    if spellings.len() > 0 {
        let front = spellings.drop_last();
        lemma_intern_all_members(names, front);
        let before = intern_all(names, front);
        let after = intern_all(names, spellings);
        assert forall|i: int| 0 <= i < after.len() implies names.contains(#[trigger] after[i])
            || spellings.contains(after[i]) by {
            if i < before.len() {
                assert(after[i] == before[i]);
                if front.contains(before[i]) {
                    let k = choose|k: int| 0 <= k < front.len() && front[k] == before[i];
                    assert(spellings[k] == front[k]);
                }
            } else {
                assert(after[i] == spellings.last());
                assert(spellings[spellings.len() - 1] == spellings.last());
            }
        }
        assert forall|k: int| 0 <= k < spellings.len() implies after.contains(
            #[trigger] spellings[k],
        ) by {
            if k < spellings.len() - 1 {
                assert(front[k] == spellings[k]);
                assert(before.contains(spellings[k]));
                let i = choose|i: int| 0 <= i < before.len() && before[i] == spellings[k];
                assert(after[i] == before[i]);
            } else {
                lemma_intern_idempotent(before, spellings.last());
            }
        }
    }
}

/// Interning a concatenation interns its two parts in turn.
pub proof fn lemma_intern_all_concat(
    names: Seq<Seq<char>>,
    first: Seq<Seq<char>>,
    second: Seq<Seq<char>>,
)
    ensures
        intern_all(names, first + second) == intern_all(intern_all(names, first), second),
    decreases second.len(),
{
    if second.len() == 0 {
        assert(first + second =~= first);
    } else {
        assert((first + second).drop_last() =~= first + second.drop_last());
        lemma_intern_all_concat(names, first, second.drop_last());
    }
}

/// Interning a spelling twice is interning it once, and it then resolves to itself.
pub proof fn lemma_intern_idempotent(names: Seq<Seq<char>>, spelling: Seq<char>)
    ensures
        intern_spec(intern_spec(names, spelling), spelling) == intern_spec(names, spelling),
        intern_spec(names, spelling).contains(spelling),
{
    if !names.contains(spelling) {
        assert(names.push(spelling)[names.len() as int] == spelling);
    }
}

/// In a table without duplicate spellings, a spelling has exactly one identifier.
pub proof fn lemma_identifier_unique(
    names: Seq<Seq<char>>,
    a: Identifier,
    b: Identifier,
    spelling: Seq<char>,
)
    requires
        names_distinct(names),
        binds(names, a, spelling),
        binds(names, b, spelling),
    ensures
        a == b,
{
}

/// The spellings of a name table, indexed by identifier.
pub struct NameTable {
    names: Vec<String>,
}

impl View for NameTable {
    type V = Seq<Seq<char>>;

    closed spec fn view(&self) -> Seq<Seq<char>> {
        self.names@.map_values(|name: String| name@)
    }
}

impl NameTable {
    /// Well-formed: no spelling occurs twice.
    pub open spec fn wf(&self) -> bool {
        names_distinct(self@)
    }

    /// An empty name table.
    pub fn new() -> (table: NameTable)
        ensures
            table@ == Seq::<Seq<char>>::empty(),
            table.wf(),
    {
        let table = NameTable { names: Vec::new() };
        assert(table@ =~= Seq::<Seq<char>>::empty());
        table
    }

    /// The number of interned names.
    pub fn len(&self) -> (n: usize)
        ensures
            n == self@.len(),
    {
        self.names.len()
    }

    /// Interns `spelling`: the identifier it already has, or a fresh one at the end.
    pub fn intern(&mut self, spelling: &String) -> (id: Identifier)
        requires
            old(self).wf(),
        ensures
            final(self)@ == intern_spec(old(self)@, spelling@),
            binds(final(self)@, id, spelling@),
            final(self).wf(),
    {
        let n = self.names.len();
        let mut i: usize = 0;
        while i < n
            invariant
                n == self.names@.len(),
                i <= n,
                self@ == old(self)@,
                self.wf(),
                forall|k: int| 0 <= k < i ==> self@[k] != spelling@,
            decreases n - i,
        {
            if self.names[i] == *spelling {
                assert(self@[i as int] == spelling@);
                assert(self@.contains(spelling@));
                return Identifier(i);
            }
            i += 1;
        }
        assert(!self@.contains(spelling@));
        let ghost before = self@;
        self.names.push(spelling.clone());
        assert(self@ =~= before.push(spelling@));
        Identifier(n)
    }

    /// The spelling that `id` names.
    pub fn resolve(&self, id: Identifier) -> (resolved: Result<&String, NameTableError>)
        ensures
            id.0 < self@.len() ==> (resolved matches Ok(name) && name@ == self@[id.0 as int]),
            id.0 >= self@.len() ==> resolved == Err::<&String, NameTableError>(
                NameTableError::UnknownIdentifier(id),
            ),
    {
        if id.0 < self.names.len() {
            Ok(&self.names[id.0])
        } else {
            Err(NameTableError::UnknownIdentifier(id))
        }
    }
}

} // verus!
