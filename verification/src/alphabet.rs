//! The alphabet: a mapping from unit codes to grapheme-cluster
//! strings. Codes are bytes, so an alphabet holds at most 256 units;
//! printable units carry exactly one grapheme cluster each, and no two
//! printable units share one. Anonymous units carry an empty string
//! and stand for codes with no printable form.

use crate::compare::str_eq;
use vstd::prelude::*;

verus! {

/// Why a unit could not be added.
#[derive(Clone, Copy, PartialEq, Eq, Structural, Debug)]
pub enum AlphabetError {
    /// The grapheme string is not exactly one grapheme cluster.
    InvalidGrapheme,
    /// Another unit already carries this grapheme.
    DuplicateGrapheme,
    /// All 256 unit codes are taken.
    UnitLimitExceeded,
    /// This unit code is already taken.
    DuplicateUnit,
}

/// A string cut into its extended grapheme clusters, in order.
pub uninterp spec fn grapheme_split(s: Seq<char>) -> Seq<Seq<char>>;

/// How many graphemes a string holds.
pub open spec fn grapheme_count(s: Seq<char>) -> nat {
    grapheme_split(s).len()
}

/// Relies on `unicode_segmentation`'s `graphemes(true).count()`: the
/// number of extended grapheme clusters, which is zero exactly for the
/// empty string (every cluster holds at least one character, and every
/// character belongs to one; so a one-character string is exactly one
/// cluster).
#[verifier::external_body]
fn grapheme_cluster_count(s: &str) -> (r: usize)
    ensures
        r == grapheme_count(s@),
        (r == 0) == (s@.len() == 0),
        s@.len() == 1 ==> r == 1,
{
    unicode_segmentation::UnicodeSegmentation::graphemes(s, true).count()
}

/// Relies on `char::to_string`: a string of exactly this one
/// character.
#[verifier::external_body]
fn char_to_string(c: char) -> (r: String)
    ensures
        r@ == seq![c],
{
    c.to_string()
}

/// Relies on `unicode_segmentation`'s `graphemes(true)`: the grapheme
/// clusters of the string, in order; their concatenation is exactly
/// the original string.
#[verifier::external_body]
pub fn graphemes_of(s: &str) -> (r: Vec<String>)
    ensures
        r@.map_values(|g: String| g@) == grapheme_split(s@),
        r@.map_values(|g: String| g@).flatten() == s@,
{
    unicode_segmentation::UnicodeSegmentation::graphemes(s, true)
        .map(|g| g.to_string())
        .collect()
}

/// One alphabet entry: the grapheme it renders as; anonymous units
/// render as nothing.
pub struct AlphabetUnit {
    pub grapheme: String,
}

impl AlphabetUnit {
    /// A unit is printable when it has a grapheme.
    pub fn is_printable(&self) -> (r: bool)
        ensures
            r == (self.grapheme@.len() > 0),
    {
        self.grapheme.as_str().unicode_len() > 0
    }
}

/// An alphabet: up to 256 units, each an optional entry at its code.
pub struct Alphabet {
    name: String,
    units: Vec<Option<AlphabetUnit>>,
    count: usize,
}

impl Alphabet {
    pub closed spec fn name_spec(&self) -> Seq<char> {
        self.name@
    }

    /// Whether code `u` is taken.
    pub closed spec fn has_unit(&self, u: int) -> bool {
        self.units@[u] is Some
    }

    /// The grapheme at code `u`.
    pub closed spec fn grapheme_at(&self, u: int) -> Seq<char> {
        self.units@[u].unwrap().grapheme@
    }

    pub closed spec fn spec_len(&self) -> int {
        self.count as int
    }

    /// Shape and uniqueness: 256 slots, the count counts the taken
    /// ones, printable units added so far are exactly one grapheme
    /// cluster, and no grapheme belongs to two units.
    pub closed spec fn wf(&self) -> bool {
        &&& self.units@.len() == 256
        &&& self.count == taken_count(self.units@, 256)
        &&& forall|u: int|
            0 <= u < 256 && self.has_unit(u) && self.grapheme_at(u).len() > 0
                ==> grapheme_count(#[trigger] self.grapheme_at(u)) == 1
        &&& forall|u1: int, u2: int|
            0 <= u1 < 256 && 0 <= u2 < 256 && u1 != u2 && self.has_unit(u1) && self.has_unit(u2)
                && #[trigger] self.grapheme_at(u1) == #[trigger] self.grapheme_at(u2)
                ==> self.grapheme_at(u1).len() == 0
    }

    /// An empty alphabet carrying a name.
    pub fn new(name: String) -> (r: Alphabet)
        ensures
            r.wf(),
            r.name_spec() == name@,
            r.spec_len() == 0,
            forall|u: int| 0 <= u < 256 ==> !r.has_unit(u),
    {
        let mut units: Vec<Option<AlphabetUnit>> = Vec::new();
        let mut i: usize = 0;
        while i < 256
            invariant
                units@.len() == i <= 256,
                forall|u: int| 0 <= u < i ==> units@[u] is None,
            decreases 256 - i,
        {
            units.push(None);
            i = i + 1;
        }
        proof {
            lemma_taken_count_all_none(units@, 256);
        }
        Alphabet { name, units, count: 0 }
    }

    /// How many unit codes are taken.
    pub fn len(&self) -> (r: usize)
        requires
            self.wf(),
        ensures
            r == self.spec_len(),
    {
        self.count
    }

    /// The alphabet's name.
    pub fn get_name(&self) -> (r: &String)
        ensures
            r@ == self.name_spec(),
    {
        &self.name
    }

    /// The entry at code `idx`, if taken.
    pub fn get_unit(&self, idx: u8) -> (r: Option<&AlphabetUnit>)
        requires
            self.wf(),
        ensures
            match r {
                Some(au) => self.has_unit(idx as int) && au.grapheme@ == self.grapheme_at(
                    idx as int,
                ),
                None => !self.has_unit(idx as int),
            },
    {
        match &self.units[idx as usize] {
            Some(au) => Some(au),
            None => None,
        }
    }

    /// The code carrying a grapheme, if any unit does. Anonymous units
    /// never answer: an empty string finds nothing.
    pub fn get_unit_idx(&self, grapheme: &String) -> (r: Option<u8>)
        requires
            self.wf(),
        ensures
            match r {
                Some(u) => self.has_unit(u as int) && self.grapheme_at(u as int) == grapheme@
                    && grapheme@.len() > 0,
                None => forall|u: int|
                    0 <= u < 256 && self.has_unit(u) && #[trigger] self.grapheme_at(u).len() > 0
                        ==> self.grapheme_at(u) != grapheme@,
            },
    {
        let mut u: usize = 0;
        while u < 256
            invariant
                self.wf(),
                u <= 256,
                forall|j: int|
                    0 <= j < u && self.has_unit(j) && #[trigger] self.grapheme_at(j).len() > 0
                        ==> self.grapheme_at(j) != grapheme@,
            decreases 256 - u,
        {
            match &self.units[u] {
                Some(au) => {
                    if au.grapheme.as_str().unicode_len() > 0 && str_eq(
                        au.grapheme.as_str(),
                        grapheme.as_str(),
                    ) {
                        return Some(u as u8);
                    }
                },
                None => {},
            }
            u = u + 1;
        }
        None
    }

    /// The smallest printable unit code, or 255 when none is.
    pub fn get_unit_min(&self) -> (r: u8)
        requires
            self.wf(),
        ensures
            forall|u: int|
                0 <= u < r ==> !(self.has_unit(u) && #[trigger] self.grapheme_at(u).len() > 0),
            (exists|u: int|
                0 <= u < 256 && self.has_unit(u) && #[trigger] self.grapheme_at(u).len() > 0)
                ==> self.has_unit(r as int) && self.grapheme_at(r as int).len() > 0,
            (forall|u: int|
                0 <= u < 256 ==> !(self.has_unit(u) && #[trigger] self.grapheme_at(u).len() > 0))
                ==> r == 255,
    {
        let mut u: usize = 0;
        while u < 256
            invariant
                self.wf(),
                u <= 256,
                forall|j: int|
                    0 <= j < u ==> !(self.has_unit(j) && #[trigger] self.grapheme_at(j).len()
                        > 0),
            decreases 256 - u,
        {
            match &self.units[u] {
                Some(au) => {
                    if au.grapheme.as_str().unicode_len() > 0 {
                        return u as u8;
                    }
                },
                None => {},
            }
            u = u + 1;
        }
        255
    }

    /// Add a printable unit: one grapheme cluster at a free code,
    /// carrying a grapheme no other unit has.
    pub fn add_unit(&mut self, unit: u8, grapheme: String) -> (r: Result<(), AlphabetError>)
        requires
            old(self).wf(),
        ensures
            final(self).wf(),
            final(self).name_spec() == old(self).name_spec(),
            match r {
                Ok(_) => {
                    &&& old(self).spec_len() < 256
                    &&& grapheme_count(grapheme@) == 1
                    &&& grapheme@.len() > 0
                    &&& !old(self).has_unit(unit as int)
                    &&& final(self).spec_len() == old(self).spec_len() + 1
                    &&& final(self).has_unit(unit as int)
                    &&& final(self).grapheme_at(unit as int) == grapheme@
                    &&& forall|u: int|
                        0 <= u < 256 && u != unit ==> final(self).has_unit(u) == old(self).has_unit(u)
                    &&& forall|u: int|
                        0 <= u < 256 && u != unit && old(self).has_unit(u) ==> final(self).grapheme_at(u) == old(self).grapheme_at(u)
                },
                Err(e) => {
                    &&& *final(self) == *old(self)
                    &&& match e {
                        AlphabetError::UnitLimitExceeded => old(self).spec_len() >= 256,
                        AlphabetError::InvalidGrapheme => old(self).spec_len() < 256
                            && grapheme_count(grapheme@) != 1,
                        AlphabetError::DuplicateGrapheme => old(self).spec_len() < 256
                            && grapheme_count(grapheme@) == 1 && exists|u: int|
                            0 <= u < 256 && old(self).has_unit(u) && #[trigger] old(
                                self,
                            ).grapheme_at(u) == grapheme@,
                        AlphabetError::DuplicateUnit => old(self).spec_len() < 256
                            && grapheme_count(grapheme@) == 1 && !(exists|u: int|
                            0 <= u < 256 && old(self).has_unit(u) && #[trigger] old(
                                self,
                            ).grapheme_at(u) == grapheme@) && old(self).has_unit(unit as int),
                    }
                },
            },
    {
        if self.count >= 256 {
            return Err(AlphabetError::UnitLimitExceeded);
        }
        if grapheme_cluster_count(grapheme.as_str()) != 1 {
            return Err(AlphabetError::InvalidGrapheme);
        }
        match self.get_unit_idx(&grapheme) {
            Some(_) => {
                return Err(AlphabetError::DuplicateGrapheme);
            },
            None => {},
        }
        if self.units[unit as usize].is_some() {
            return Err(AlphabetError::DuplicateUnit);
        }
        let ghost prev = *self;
        let ghost g = grapheme@;
        self.units.set(unit as usize, Some(AlphabetUnit { grapheme }));
        self.count = self.count + 1;
        proof {
            lemma_taken_count_set(prev.units@, self.units@, unit as int);
            assert(g.len() > 0);
            assert forall|u: int|
                0 <= u < 256 && self.has_unit(u) && self.grapheme_at(u).len() > 0 implies
                grapheme_count(#[trigger] self.grapheme_at(u)) == 1 by {
                if u != unit as int {
                    assert(self.grapheme_at(u) == prev.grapheme_at(u));
                    assert(prev.has_unit(u));
                }
            }
            assert forall|u1: int, u2: int|
                0 <= u1 < 256 && 0 <= u2 < 256 && u1 != u2 && self.has_unit(u1) && self.has_unit(
                    u2,
                ) && #[trigger] self.grapheme_at(u1) == #[trigger] self.grapheme_at(
                    u2,
                ) implies self.grapheme_at(u1).len() == 0 by {
                if u1 == unit as int {
                    assert(prev.has_unit(u2) && prev.grapheme_at(u2) == g);
                    assert(prev.grapheme_at(u2).len() > 0);
                    assert(false);
                } else if u2 == unit as int {
                    assert(prev.has_unit(u1) && prev.grapheme_at(u1) == g);
                    assert(prev.grapheme_at(u1).len() > 0);
                    assert(false);
                } else {
                    assert(prev.has_unit(u1) && prev.has_unit(u2));
                    assert(prev.grapheme_at(u1) == prev.grapheme_at(u2));
                }
            }
        }
        Ok(())
    }

    /// Add an anonymous unit: a free code with no grapheme.
    pub fn add_anonymous_unit(&mut self, unit: u8) -> (r: Result<(), AlphabetError>)
        requires
            old(self).wf(),
        ensures
            final(self).wf(),
            final(self).name_spec() == old(self).name_spec(),
            match r {
                Ok(_) => {
                    &&& old(self).spec_len() < 256
                    &&& !old(self).has_unit(unit as int)
                    &&& final(self).spec_len() == old(self).spec_len() + 1
                    &&& final(self).has_unit(unit as int)
                    &&& final(self).grapheme_at(unit as int) == Seq::<char>::empty()
                    &&& forall|u: int|
                        0 <= u < 256 && u != unit ==> final(self).has_unit(u) == old(self).has_unit(u)
                    &&& forall|u: int|
                        0 <= u < 256 && u != unit && old(self).has_unit(u) ==> final(self).grapheme_at(u) == old(self).grapheme_at(u)
                },
                Err(e) => {
                    &&& *final(self) == *old(self)
                    &&& match e {
                        AlphabetError::UnitLimitExceeded => old(self).spec_len() >= 256,
                        AlphabetError::DuplicateUnit => old(self).spec_len() < 256 && old(
                            self,
                        ).has_unit(unit as int),
                        _ => false,
                    }
                },
            },
    {
        if self.count >= 256 {
            return Err(AlphabetError::UnitLimitExceeded);
        }
        if self.units[unit as usize].is_some() {
            return Err(AlphabetError::DuplicateUnit);
        }
        let ghost prev = *self;
        self.units.set(unit as usize, Some(AlphabetUnit { grapheme: String::new() }));
        self.count = self.count + 1;
        proof {
            lemma_taken_count_set(prev.units@, self.units@, unit as int);
            assert forall|u: int|
                0 <= u < 256 && self.has_unit(u) && self.grapheme_at(u).len() > 0 implies
                grapheme_count(#[trigger] self.grapheme_at(u)) == 1 by {
                if u != unit as int {
                    assert(self.grapheme_at(u) == prev.grapheme_at(u));
                    assert(prev.has_unit(u));
                }
            }
            assert forall|u1: int, u2: int|
                0 <= u1 < 256 && 0 <= u2 < 256 && u1 != u2 && self.has_unit(u1) && self.has_unit(
                    u2,
                ) && #[trigger] self.grapheme_at(u1) == #[trigger] self.grapheme_at(
                    u2,
                ) implies self.grapheme_at(u1).len() == 0 by {
                if u1 == unit as int || u2 == unit as int {
                    assert(self.grapheme_at(unit as int).len() == 0);
                } else {
                    assert(prev.has_unit(u1) && prev.has_unit(u2));
                    assert(prev.grapheme_at(u1) == prev.grapheme_at(u2));
                }
            }
        }
        Ok(())
    }
}

/// The stock alphabet: every byte is a unit, named `ASCII`; the
/// printable ASCII codes carry themselves as their grapheme, every
/// other code is anonymous.
pub fn default_ascii_alphabet() -> (r: Alphabet)
    ensures
        r.wf(),
        r.spec_len() == 256,
        r.name_spec() == "ASCII"@,
        forall|u: int|
            0x20 <= u <= 0x7e ==> #[trigger] r.has_unit(u) && r.grapheme_at(u) == seq![
                ((u as u8) as char),
            ] && grapheme_count(r.grapheme_at(u)) == 1,
        forall|u: int|
            (0 <= u < 0x20 || 0x7f <= u < 256) ==> #[trigger] r.has_unit(u) && r.grapheme_at(
                u,
            ).len() == 0,
{
    let mut alphabet = Alphabet::new(String::from_str("ASCII"));
    let mut u: usize = 0;
    while u < 0x20
        invariant
            alphabet.wf(),
            alphabet.name_spec() == "ASCII"@,
            u <= 0x20,
            alphabet.spec_len() == u,
            forall|v: int|
                0 <= v < u ==> #[trigger] alphabet.has_unit(v) && alphabet.grapheme_at(v).len()
                    == 0,
            forall|v: int| u <= v < 256 ==> !alphabet.has_unit(v),
        decreases 0x20 - u,
    {
        let ghost prev = alphabet;
        let r = alphabet.add_anonymous_unit(u as u8);
        proof {
            assert(r is Ok);
            assert forall|v: int| 0 <= v < u + 1 implies #[trigger] alphabet.has_unit(v)
                && alphabet.grapheme_at(v).len() == 0 by {
                if v < u as int {
                    assert(prev.has_unit(v));
                    assert(alphabet.grapheme_at(v) == prev.grapheme_at(v));
                }
            }
        }
        u = u + 1;
    }
    while u < 0x7f
        invariant
            alphabet.wf(),
            alphabet.name_spec() == "ASCII"@,
            0x20 <= u <= 0x7f,
            alphabet.spec_len() == u,
            forall|v: int|
                0 <= v < 0x20 ==> #[trigger] alphabet.has_unit(v) && alphabet.grapheme_at(v).len()
                    == 0,
            forall|v: int|
                0x20 <= v < u ==> #[trigger] alphabet.has_unit(v) && alphabet.grapheme_at(v)
                    == seq![((v as u8) as char)] && grapheme_count(alphabet.grapheme_at(v)) == 1,
            forall|v: int| u <= v < 256 ==> !alphabet.has_unit(v),
        decreases 0x7f - u,
    {
        let c = (u as u8) as char;
        let g = char_to_string(c);
        let gc = grapheme_cluster_count(g.as_str());
        proof {
            assert(gc == 1);
            assert(g@.len() == 1);
            assert forall|v: int|
                0 <= v < 256 && alphabet.has_unit(v) implies alphabet.grapheme_at(v) != g@ by {
                if 0x20 <= v < u as int {
                    assert(alphabet.grapheme_at(v) == seq![((v as u8) as char)]);
                    assert(seq![((v as u8) as char)][0] == ((v as u8) as char));
                    assert(g@[0] == c);
                    assert(((v as u8) as char) != c);
                } else {
                    assert(alphabet.grapheme_at(v).len() == 0);
                }
            }
        }
        let ghost prev = alphabet;
        let r = alphabet.add_unit(u as u8, g);
        proof {
            assert(r is Ok);
            assert forall|v: int| 0 <= v < 0x20 implies #[trigger] alphabet.has_unit(v)
                && alphabet.grapheme_at(v).len() == 0 by {
                assert(prev.has_unit(v));
                assert(alphabet.grapheme_at(v) == prev.grapheme_at(v));
            }
            assert forall|v: int| 0x20 <= v < u + 1 implies #[trigger] alphabet.has_unit(v)
                && alphabet.grapheme_at(v) == seq![((v as u8) as char)]
                && grapheme_count(alphabet.grapheme_at(v)) == 1 by {
                if v < u as int {
                    assert(prev.has_unit(v));
                    assert(alphabet.grapheme_at(v) == prev.grapheme_at(v));
                } else {
                    assert(alphabet.grapheme_at(v) == g@);
                }
            }
        }
        u = u + 1;
    }
    while u < 256
        invariant
            alphabet.wf(),
            alphabet.name_spec() == "ASCII"@,
            0x7f <= u <= 256,
            alphabet.spec_len() == u,
            forall|v: int|
                (0 <= v < 0x20 || 0x7f <= v < u) ==> #[trigger] alphabet.has_unit(v)
                    && alphabet.grapheme_at(v).len() == 0,
            forall|v: int|
                0x20 <= v < 0x7f ==> #[trigger] alphabet.has_unit(v) && alphabet.grapheme_at(v)
                    == seq![((v as u8) as char)] && grapheme_count(alphabet.grapheme_at(v)) == 1,
            forall|v: int| u <= v < 256 ==> !alphabet.has_unit(v),
        decreases 256 - u,
    {
        let ghost prev = alphabet;
        let r = alphabet.add_anonymous_unit(u as u8);
        proof {
            assert(r is Ok);
            assert forall|v: int| 0 <= v < 0x20 || 0x7f <= v < u + 1 implies
                #[trigger] alphabet.has_unit(v) && alphabet.grapheme_at(v).len() == 0 by {
                if v != u as int {
                    assert(prev.has_unit(v));
                    assert(alphabet.grapheme_at(v) == prev.grapheme_at(v));
                }
            }
            assert forall|v: int| 0x20 <= v < 0x7f implies #[trigger] alphabet.has_unit(v)
                && alphabet.grapheme_at(v) == seq![((v as u8) as char)]
                && grapheme_count(alphabet.grapheme_at(v)) == 1 by {
                assert(prev.has_unit(v));
                assert(alphabet.grapheme_at(v) == prev.grapheme_at(v));
            }
        }
        u = u + 1;
    }
    alphabet
}

/// No two units of a well-formed alphabet carry one printable
/// grapheme.
pub proof fn lemma_printable_grapheme_unique(a: &Alphabet, u1: int, u2: int)
    requires
        a.wf(),
        0 <= u1 < 256,
        0 <= u2 < 256,
        a.has_unit(u1),
        a.has_unit(u2),
        a.grapheme_at(u1) == a.grapheme_at(u2),
        a.grapheme_at(u1).len() > 0,
    ensures
        u1 == u2,
{
}

/// How many of the first `n` slots are taken.
pub open spec fn taken_count(units: Seq<Option<AlphabetUnit>>, n: int) -> int
    decreases n,
{
    if n <= 0 {
        0
    } else {
        taken_count(units, n - 1) + (if units[n - 1] is Some {
            1int
        } else {
            0int
        })
    }
}

/// A run of free slots counts to nothing.
proof fn lemma_taken_count_all_none(units: Seq<Option<AlphabetUnit>>, n: int)
    requires
        0 <= n <= units.len(),
        forall|j: int| 0 <= j < n ==> units[j] is None,
    ensures
        taken_count(units, n) == 0,
    decreases n,
{
    if n > 0 {
        lemma_taken_count_all_none(units, n - 1);
    }
}

/// Filling one free slot raises the count by one.
proof fn lemma_taken_count_set(prev: Seq<Option<AlphabetUnit>>, now: Seq<Option<AlphabetUnit>>, u: int)
    requires
        prev.len() == now.len(),
        0 <= u < prev.len(),
        prev[u] is None,
        now[u] is Some,
        forall|j: int| 0 <= j < prev.len() && j != u ==> now[j] == prev[j],
    ensures
        forall|n: int|
            0 <= n <= prev.len() ==> taken_count(now, n) == taken_count(prev, n) + (if u < n {
                1int
            } else {
                0int
            }),
{
    assert forall|n: int|
        0 <= n <= prev.len() implies taken_count(now, n) == taken_count(prev, n) + (if u < n {
        1int
    } else {
        0int
    }) by {
        lemma_taken_count_set_helper(prev, now, u, n);
    }
}

proof fn lemma_taken_count_set_helper(
    prev: Seq<Option<AlphabetUnit>>,
    now: Seq<Option<AlphabetUnit>>,
    u: int,
    n: int,
)
    requires
        prev.len() == now.len(),
        0 <= u < prev.len(),
        prev[u] is None,
        now[u] is Some,
        forall|j: int| 0 <= j < prev.len() && j != u ==> now[j] == prev[j],
        0 <= n <= prev.len(),
    ensures
        taken_count(now, n) == taken_count(prev, n) + (if u < n {
            1int
        } else {
            0int
        }),
    decreases n,
{
    if n > 0 {
        lemma_taken_count_set_helper(prev, now, u, n - 1);
    }
}

} // verus!
