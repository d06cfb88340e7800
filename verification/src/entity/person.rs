//! Participants, and the order of their names.

use vstd::prelude::*;
use vstd::std_specs::iter::IteratorSpec;

verus! {

/// How a participant is known in contracts: the characters of the name.
pub type Name = Seq<char>;

/// A participant, identified by name. Two persons with the same name are the
/// same participant.
#[derive(Debug)]
pub struct Person(String);

impl View for Person {
    type V = Name;

    closed spec fn view(&self) -> Name {
        self.0@
    }
}

impl DeepView for Person {
    type V = Name;

    open spec fn deep_view(&self) -> Name {
        self@
    }
}

impl Clone for Person {
    /// The same participant.
    fn clone(&self) -> (copy: Self)
        ensures
            copy@ == self@,
    {
        Person(self.0.clone())
    }
}

impl PartialEq for Person {
    /// Whether the two have the same name.
    fn eq(&self, other: &Self) -> (same: bool) {
        self.0 == other.0
    }
}

impl Eq for Person {

}

impl vstd::std_specs::cmp::PartialEqSpecImpl for Person {
    open spec fn obeys_eq_spec() -> bool {
        true
    }

    open spec fn eq_spec(&self, other: &Self) -> bool {
        self@ == other@
    }
}

/// The order of names: character by character, by code point, a proper
/// prefix before its extensions. Strict: no name is before itself.
pub open spec fn name_before(a: Name, b: Name) -> bool
    decreases a.len(),
{
    if b.len() == 0 {
        false
    } else if a.len() == 0 {
        true
    } else if a[0] != b[0] {
        a[0] < b[0]
    } else {
        name_before(a.drop_first(), b.drop_first())
    }
}

/// No name comes before itself.
pub proof fn lemma_name_before_irreflexive(a: Name)
    ensures
        !name_before(a, a),
    decreases a.len(),
{
    if a.len() > 0 {
        lemma_name_before_irreflexive(a.drop_first());
    }
}

/// If `a` is before `b` and `b` is before `c`, then `a` is before `c`.
pub proof fn lemma_name_before_transitive(a: Name, b: Name, c: Name)
    requires
        name_before(a, b),
        name_before(b, c),
    ensures
        name_before(a, c),
    decreases a.len(),
{
    if a.len() > 0 && a[0] == b[0] && b[0] == c[0] {
        lemma_name_before_transitive(a.drop_first(), b.drop_first(), c.drop_first());
    }
}

/// Of two different names, one comes before the other.
pub proof fn lemma_name_before_connected(a: Name, b: Name)
    requires
        a != b,
    ensures
        name_before(a, b) || name_before(b, a),
    decreases a.len(),
{
    if a.len() > 0 && b.len() > 0 && a[0] == b[0] {
        if a.drop_first() == b.drop_first() {
            assert(a =~= seq![a[0]] + a.drop_first());
            assert(b =~= seq![b[0]] + b.drop_first());
        }
        lemma_name_before_connected(a.drop_first(), b.drop_first());
    } else if a.len() == 0 && b.len() == 0 {
        assert(a =~= b);
    }
}

impl Person {
    /// The participant of that name.
    pub fn new(name: String) -> (person: Self)
        ensures
            person@ == name@,
    {
        Self(name)
    }

    /// The name.
    pub fn as_inner(&self) -> (name: &String)
        ensures
            name@ == self@,
    {
        &self.0
    }

    /// Whether this person's name comes strictly before the other's.
    pub fn precedes(&self, other: &Person) -> (before: bool)
        ensures
            before == name_before(self@, other@),
    {
        let mut xs = self.0.as_str().chars();
        let mut ys = other.0.as_str().chars();
        loop
            invariant
                name_before(self@, other@) == name_before(xs.remaining(), ys.remaining()),
                xs.decrease() is Some,
            decreases xs.decrease()->0,
        {
            match (xs.next(), ys.next()) {
                (_, None) => {
                    return false;
                },
                (None, Some(_)) => {
                    return true;
                },
                (Some(x), Some(y)) => {
                    if x != y {
                        return x < y;
                    }
                },
            }
        }
    }
}

} // verus!
