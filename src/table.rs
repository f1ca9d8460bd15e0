use vstd::prelude::*;
use rand::rngs::StdRng;

verus! {

/// rand's seedable standard generator, carried through as an opaque value.
#[verifier::external_type_specification]
#[verifier::external_body]
pub struct ExStdRng(StdRng);

/// Relies on rand's `Rng::gen_range`: for a non-empty range `0..n` it returns
/// a value inside the range (it panics on an empty one).
#[verifier::external_body]
fn draw_index(rng: &mut StdRng, n: usize) -> (r: usize)
    requires
        n > 0,
    ensures
        r < n,
{
    rand::Rng::gen_range(rng, 0..n)
}

/// Sampling a table that holds no entry.
#[derive(Clone, Copy, Debug, PartialEq, Eq, Structural)]
pub struct EmptyTableError;

/// A mapping from color name to color specification, kept in insertion order,
/// with unique names.
#[derive(Debug)]
pub struct ColorTable {
    entries: Vec<(String, String)>,
}

/// No two entries share a name.
pub open spec fn unique_names(s: Seq<(Seq<char>, Seq<char>)>) -> bool {
    forall|i: int, j: int|
        0 <= i < s.len() && 0 <= j < s.len() && i != j ==> #[trigger] s[i].0 != #[trigger] s[j].0
}

/// Some entry of `s` is named `name`.
pub open spec fn has_name(s: Seq<(Seq<char>, Seq<char>)>, name: Seq<char>) -> bool {
    exists|i: int| 0 <= i < s.len() && #[trigger] s[i].0 == name
}

impl View for ColorTable {
    type V = Seq<(Seq<char>, Seq<char>)>;

    closed spec fn view(&self) -> Seq<(Seq<char>, Seq<char>)> {
        self.entries@.map_values(|e: (String, String)| (e.0@, e.1@))
    }
}

impl ColorTable {
    pub open spec fn wf(&self) -> bool {
        unique_names(self@)
    }

    pub fn new() -> (t: ColorTable)
        ensures
            t.wf(),
            t@ == Seq::<(Seq<char>, Seq<char>)>::empty(),
    {
        let t = ColorTable { entries: Vec::new() };
        assert(t@ =~= Seq::<(Seq<char>, Seq<char>)>::empty());
        t
    }

    pub fn len(&self) -> (n: usize)
        ensures
            n == self@.len(),
    {
        self.entries.len()
    }

    pub fn is_empty(&self) -> (b: bool)
        ensures
            b == (self@.len() == 0),
    {
        self.entries.len() == 0
    }

    /// Position of the entry named `name`, if there is one.
    fn position_of(&self, name: &String) -> (r: Option<usize>)
        ensures
            r is None ==> !has_name(self@, name@),
            r is Some ==> r->0 < self@.len() && self@[r->0 as int].0 == name@,
    {
        let mut i: usize = 0;
        while i < self.entries.len()
            invariant
                i <= self.entries@.len(),
                self@.len() == self.entries@.len(),
                forall|k: int| 0 <= k < i ==> #[trigger] self@[k].0 != name@,
            decreases self.entries.len() - i,
        {
            if self.entries[i].0 == *name {
                return Some(i);
            }
            i = i + 1;
        }
        assert(!has_name(self@, name@));
        None
    }

    /// Adds `name` with `spec` at the end; where `name` is present already,
    /// its specification is replaced in place.
    pub fn insert(&mut self, name: String, spec: String)
        requires
            old(self).wf(),
        ensures
            final(self).wf(),
            !has_name(old(self)@, name@) ==> final(self)@ == old(self)@.push((name@, spec@)),
            forall|i: int|
                0 <= i < old(self)@.len() && #[trigger] old(self)@[i].0 == name@ ==> final(self)@
                    == old(self)@.update(i, (name@, spec@)),
    {
        match self.position_of(&name) {
            Some(i) => {
                let ghost pre = self@;
                self.entries.set(i, (name, spec));
                assert(self@ =~= pre.update(i as int, (pre[i as int].0, spec@)));
                assert forall|k: int|
                    0 <= k < pre.len() && #[trigger] pre[k].0 == pre[i as int].0 implies k
                    == i by {}
            },
            None => {
                let ghost pre = self@;
                self.entries.push((name, spec));
                assert(self@ =~= pre.push((name@, spec@)));
            },
        }
    }

    /// The specification stored under `name`.
    pub fn get(&self, name: &String) -> (r: Option<&String>)
        requires
            self.wf(),
        ensures
            r is None <==> !has_name(self@, name@),
            r is Some ==> has_name(self@, name@) && (exists|i: int|
                0 <= i < self@.len() && #[trigger] self@[i] == (name@, r->0@)),
    {
        match self.position_of(name) {
            Some(i) => {
                assert(self@[i as int] == (name@, self.entries[i as int].1@));
                Some(&self.entries[i].1)
            },
            None => None,
        }
    }

    /// The entry at position `index`, in insertion order.
    pub fn entry_at(&self, index: usize) -> (r: (&String, &String))
        requires
            index < self@.len(),
        ensures
            (r.0@, r.1@) == self@[index as int],
    {
        let e = &self.entries[index];
        (&e.0, &e.1)
    }

    /// An entry drawn uniformly at random from `rng`.
    pub fn pick_random(&self, rng: &mut StdRng) -> (r: Result<(&String, &String), EmptyTableError>)
        ensures
            r is Err <==> self@.len() == 0,
            r matches Ok(e) ==> exists|i: int|
                0 <= i < self@.len() && #[trigger] self@[i] == (e.0@, e.1@),
    {
        let n = self.entries.len();
        if n == 0 {
            return Err(EmptyTableError);
        }
        let index = draw_index(rng, n);
        Ok(self.entry_at(index))
    }
}

} // verus!
