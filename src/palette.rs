use vstd::prelude::*;

verus! {

/// The identifier that always holds index zero.
pub open spec fn air() -> Seq<char> {
    "minecraft:air"@
}

/// The largest number of identifiers a palette can hold: its indices are
/// written as signed 32-bit integers.
pub const MAX_PALETTE: usize = 0x7fff_ffff;

/// The index of `id` in a palette whose `i`-th entry is the identifier with
/// index `i`.
pub open spec fn index_of(p: Seq<Seq<char>>, id: Seq<char>) -> nat {
    (choose|i: int| 0 <= i < p.len() && p[i] == id) as nat
}

/// A palette after interning `id`: unchanged if `id` is present, else `id`
/// takes the next index.
pub open spec fn interned(p: Seq<Seq<char>>, id: Seq<char>) -> Seq<Seq<char>> {
    if p.contains(id) {
        p
    } else {
        p.push(id)
    }
}

/// No identifier occurs twice.
pub open spec fn distinct(p: Seq<Seq<char>>) -> bool {
    forall|i: int, j: int| 0 <= i < p.len() && 0 <= j < p.len() && i != j ==> p[i] != p[j]
}

/// A palette as its entries are meant: air first, every identifier once, and
/// every index representable.
pub open spec fn palette_wf(p: Seq<Seq<char>>) -> bool {
    &&& 1 <= p.len() <= MAX_PALETTE
    &&& p[0] == air()
    &&& distinct(p)
}

/// In a well-formed palette, the entry at `i` has index `i`.
pub proof fn lemma_index_of_entry(p: Seq<Seq<char>>, i: int)
    requires
        palette_wf(p),
        0 <= i < p.len(),
    ensures
        index_of(p, p[i]) == i,
{
    let j = choose|j: int| 0 <= j < p.len() && p[j] == p[i];
    assert(0 <= j < p.len() && p[j] == p[i]);
}

/// The dictionary from block identifier to a dense index.
pub struct Palette {
    names: Vec<String>,
}

impl View for Palette {
    type V = Seq<Seq<char>>;

    closed spec fn view(&self) -> Seq<Seq<char>> {
        self.names@.map_values(|s: String| s@)
    }
}

impl Palette {
    /// A palette that holds air alone, at index zero.
    pub fn new() -> (r: Palette)
        ensures
            r@ == seq![air()],
            palette_wf(r@),
    {
        let mut names: Vec<String> = Vec::new();
        names.push("minecraft:air".to_string());
        let r = Palette { names };
        assert(r@ =~= seq![air()]);
        r
    }

    /// The number of identifiers, air included.
    pub fn len(&self) -> (r: usize)
        ensures
            r == self@.len(),
    {
        self.names.len()
    }

    /// The identifier with index `i`.
    pub fn name(&self, i: usize) -> (r: &str)
        requires
            i < self@.len(),
        ensures
            r@ == self@[i as int],
    {
        self.names[i].as_str()
    }

    /// The index of `id` if it is present.
    pub fn lookup(&self, id: &str) -> (r: Option<u32>)
        requires
            palette_wf(self@),
        ensures
            r is None <==> !self@.contains(id@),
            r matches Some(i) ==> i < self@.len() && self@[i as int] == id@ && i == index_of(
                self@,
                id@,
            ),
    {
        let key: String = id.to_string();
        let mut i: usize = 0;
        while i < self.names.len()
            invariant
                palette_wf(self@),
                key@ == id@,
                i <= self.names@.len(),
                forall|j: int| 0 <= j < i ==> self@[j] != id@,
            decreases self.names@.len() - i,
        {
            if self.names[i] == key {
                proof {
                    lemma_index_of_entry(self@, i as int);
                }
                return Some(i as u32);
            }
            i += 1;
        }
        None
    }

    /// Returns the index of `id`, giving it the next index first if it is new.
    pub fn intern(&mut self, id: &str) -> (r: u32)
        requires
            palette_wf(old(self)@),
            old(self)@.contains(id@) || old(self)@.len() < MAX_PALETTE,
        ensures
            final(self)@ == interned(old(self)@, id@),
            palette_wf(final(self)@),
            r < final(self)@.len(),
            final(self)@[r as int] == id@,
            r == index_of(final(self)@, id@),
    {
        match self.lookup(id) {
            Some(i) => i,
            None => {
                let n: usize = self.names.len();
                let ghost before = self@;
                self.names.push(id.to_string());
                assert(self@ =~= before.push(id@));
                proof {
                    lemma_index_of_entry(self@, n as int);
                }
                n as u32
            },
        }
    }
}

} // verus!
