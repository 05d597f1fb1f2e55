//! Extensions: the sets of arguments that a criterion accepts.
use vstd::prelude::*;
use vstd::string::StringExecFns;

use crate::argumentation_framework::symbols::Argument;
use crate::error::Error;
use crate::framework::GenericExtension;
use crate::text::{
    lemma_precedes_connected, lemma_precedes_irreflexive, lemma_precedes_transitive, precedes,
    rank, slice_to_string, to_chars, Rank,
};

verus! {

/// Whether the names stand in the order of the dictionary, none of them
/// twice.
pub open spec fn ascending(names: Seq<Seq<char>>) -> bool {
    forall|i: int, j: int| 0 <= i < j < names.len() ==> precedes(names[i], names[j])
}

/// The first of names in ascending order comes before all the others, and
/// what follows it is in ascending order and holds every name but the
/// first.
pub proof fn lemma_ascending_tail(names: Seq<Seq<char>>)
    requires
        ascending(names),
        names.len() > 0,
    ensures
        ascending(names.drop_first()),
        !name_set(names.drop_first()).contains(names[0]),
        name_set(names) == name_set(names.drop_first()).insert(names[0]),
        forall|name: Seq<char>| #[trigger]
            name_set(names.drop_first()).contains(name) ==> precedes(names[0], name),
{
    let tail = names.drop_first();
    assert forall|i: int, j: int| 0 <= i < j < tail.len() implies precedes(tail[i], tail[j]) by {
        assert(precedes(names[i + 1], names[j + 1]));
    }
    assert forall|name: Seq<char>| #[trigger] name_set(tail).contains(name) implies precedes(
        names[0],
        name,
    ) by {
        let i = choose|i: int| 0 <= i < tail.len() && tail[i] == name;
        assert(precedes(names[0], names[i + 1]));
    }
    if name_set(tail).contains(names[0]) {
        lemma_precedes_irreflexive(names[0]);
    }
    assert(name_set(names) =~= name_set(tail).insert(names[0])) by {
        assert forall|name: Seq<char>| name_set(names).contains(name) implies name_set(tail).insert(
            names[0],
        ).contains(name) by {
            let i = choose|i: int| 0 <= i < names.len() && names[i] == name;
            if i > 0 {
                assert(tail[i - 1] == name);
            }
        }
        assert forall|name: Seq<char>| name_set(tail).insert(names[0]).contains(
            name,
        ) implies name_set(names).contains(name) by {
            if name == names[0] {
                assert(names[0] == name);
            } else {
                let i = choose|i: int| 0 <= i < tail.len() && tail[i] == name;
                assert(names[i + 1] == name);
            }
        }
    }
}

/// Names in ascending order are determined by the set that they make: two
/// extensions are equal exactly if they accept the same arguments.
pub proof fn lemma_same_set_same_names(a: Seq<Seq<char>>, b: Seq<Seq<char>>)
    requires
        ascending(a),
        ascending(b),
    ensures
        a == b <==> name_set(a) == name_set(b),
    decreases a.len(),
{
    if name_set(a) == name_set(b) {
        if a.len() == 0 {
            if b.len() > 0 {
                assert(name_set(b).contains(b[0]));
                assert(name_set(a).contains(b[0]));
            }
            assert(a =~= b);
        } else if b.len() == 0 {
            assert(name_set(a).contains(a[0]));
            assert(name_set(b).contains(a[0]));
        } else {
            lemma_ascending_tail(a);
            lemma_ascending_tail(b);
            assert(name_set(a).contains(a[0]));
            assert(name_set(b).contains(b[0]));
            if a[0] != b[0] {
                assert(name_set(b).contains(a[0]));
                assert(name_set(b.drop_first()).contains(a[0]));
                assert(name_set(a).contains(b[0]));
                assert(name_set(a.drop_first()).contains(b[0]));
                lemma_precedes_connected(a[0], b[0]);
            }
            assert(name_set(a.drop_first()) =~= name_set(b.drop_first())) by {
                assert forall|name: Seq<char>| name_set(a.drop_first()).contains(name)
                    == name_set(b.drop_first()).contains(name) by {
                    if name != a[0] {
                        assert(name_set(a).contains(name) == name_set(a.drop_first()).contains(name));
                        assert(name_set(b).contains(name) == name_set(b.drop_first()).contains(name));
                    }
                }
            }
            lemma_same_set_same_names(a.drop_first(), b.drop_first());
            assert(a =~= seq![a[0]] + a.drop_first());
            assert(b =~= seq![b[0]] + b.drop_first());
        }
    }
}

/// The name without the quotation marks at its front.
pub open spec fn strip_front(name: Seq<char>) -> Seq<char>
    decreases name.len(),
{
    if name.len() > 0 && name[0] == '"' {
        strip_front(name.drop_first())
    } else {
        name
    }
}

/// The name without the quotation marks at its back.
pub open spec fn strip_back(name: Seq<char>) -> Seq<char>
    decreases name.len(),
{
    if name.len() > 0 && name.last() == '"' {
        strip_back(name.drop_last())
    } else {
        name
    }
}

/// The name of the argument that a shown symbol stands for: the symbol
/// without the quotation marks around it.
pub open spec fn unquoted(symbol: Seq<char>) -> Seq<char> {
    strip_back(strip_front(symbol))
}

/// Computes [`unquoted`].
pub fn unquote(symbol: &String) -> (name: String)
    ensures
        name@ == unquoted(symbol@),
{
    let chars = to_chars(symbol.as_str());
    let mut start: usize = 0;
    proof {
        assert(chars@.skip(0) == chars@);
    }
    while start < chars.len() && chars[start] == '"'
        invariant
            start <= chars.len(),
            strip_front(chars@) == strip_front(chars@.skip(start as int)),
        decreases chars.len() - start,
    {
        proof {
            assert(chars@.skip(start as int).drop_first() == chars@.skip(start + 1));
        }
        start += 1;
    }
    let ghost front = chars@.skip(start as int);
    let mut end: usize = chars.len();
    proof {
        assert(strip_front(chars@) == front);
        assert(chars@.subrange(start as int, end as int) == front);
    }
    while end > start && chars[end - 1] == '"'
        invariant
            start <= end <= chars.len(),
            strip_back(front) == strip_back(chars@.subrange(start as int, end as int)),
        decreases end - start,
    {
        proof {
            assert(chars@.subrange(start as int, end as int).drop_last() == chars@.subrange(
                start as int,
                end - 1,
            ));
        }
        end -= 1;
    }
    slice_to_string(&chars, start, end)
}

/// What one model of the solver shows: the symbols of the accepted
/// arguments, in the order in which the solver lists them.
#[derive(Debug, Clone, PartialEq, Eq)]
pub struct Model {
    pub shown: Vec<String>,
}

/// An extension of a framework: a set of arguments, kept in the order of
/// their names. The empty extension is an extension like any other.
#[derive(Debug, PartialEq, Eq, PartialOrd, Ord)]
pub struct Extension {
    /// The names of the accepted arguments.
    atoms: Vec<String>,
}

impl View for Extension {
    type V = Seq<Seq<char>>;

    /// The names of the accepted arguments, in order.
    closed spec fn view(&self) -> Seq<Seq<char>> {
        Seq::new(self.atoms@.len(), |i: int| self.atoms@[i]@)
    }
}

/// The names that occur in `names`.
pub open spec fn name_set(names: Seq<Seq<char>>) -> Set<Seq<char>> {
    Set::new(|name: Seq<char>| exists|i: int| 0 <= i < names.len() && names[i] == name)
}

/// The names of the arguments that a model shows.
pub open spec fn shown_names(shown: Seq<String>) -> Seq<Seq<char>> {
    Seq::new(shown.len(), |i: int| unquoted(shown[i]@))
}

/// The names separated by commas.
pub open spec fn joined(names: Seq<Seq<char>>) -> Seq<char>
    decreases names.len(),
{
    if names.len() == 0 {
        Seq::empty()
    } else if names.len() == 1 {
        names[0]
    } else {
        joined(names.drop_last()) + ","@ + names.last()
    }
}

impl Extension {
    /// What always holds of an extension: its names are in order, none of
    /// them twice.
    pub open spec fn wf(&self) -> bool {
        ascending(self@)
    }

    /// The accepted names as a set.
    pub open spec fn set(&self) -> Set<Seq<char>> {
        name_set(self@)
    }

    /// The empty extension.
    pub fn empty() -> (extension: Self)
        ensures
            extension.wf(),
            extension@ == Seq::<Seq<char>>::empty(),
    {
        let extension = Extension { atoms: Vec::new() };
        proof {
            assert(extension@ =~= Seq::<Seq<char>>::empty());
        }
        extension
    }

    /// Number of accepted arguments.
    pub fn len(&self) -> (len: usize)
        ensures
            len == self@.len(),
    {
        self.atoms.len()
    }

    /// The name of the accepted argument at the place `i`.
    pub fn name(&self, i: usize) -> (name: &String)
        requires
            i < self@.len(),
        ensures
            name@ == self@[i as int],
    {
        &self.atoms[i]
    }

    /// Whether the extension holds the argument named `id`.
    pub fn contains_name(&self, id: &String) -> (found: bool)
        ensures
            found == self.set().contains(id@),
    {
        let mut i: usize = 0;
        while i < self.atoms.len()
            invariant
                i <= self.atoms.len(),
                forall|j: int| 0 <= j < i ==> self@[j] != id@,
            decreases self.atoms.len() - i,
        {
            if self.atoms[i] == *id {
                proof {
                    assert(self@[i as int] == id@);
                }
                return true;
            }
            i += 1;
        }
        false
    }

    /// Puts the argument named `id` into the extension, at the place that
    /// the order gives it. Nothing changes if it is there already.
    pub fn insert(&mut self, id: String)
        requires
            old(self).wf(),
        ensures
            final(self).wf(),
            final(self).set() == old(self).set().insert(id@),
    {
        let mut at: usize = 0;
        let mut placed = false;
        while at < self.atoms.len() && !placed
            invariant
                at <= self.atoms.len(),
                self.atoms@ == old(self).atoms@,
                self.wf(),
                forall|j: int| 0 <= j < at ==> precedes(self@[j], id@),
                placed ==> at < self.atoms.len() && precedes(id@, self@[at as int]),
            decreases self.atoms.len() - at + if placed { 0int } else { 1int },
        {
            match rank(&self.atoms[at], &id) {
                Rank::Before => {
                    at += 1;
                },
                Rank::Same => {
                    proof {
                        assert(self@[at as int] == id@);
                        assert(self.set() =~= old(self).set().insert(id@));
                    }
                    return ;
                },
                Rank::After => {
                    placed = true;
                },
            }
        }
        let ghost before = self@;
        proof {
            assert(at < before.len() ==> precedes(id@, before[at as int]));
        }
        self.atoms.insert(at, id);
        proof {
            let after = self@;
            assert(after =~= before.insert(at as int, id@));
            assert forall|i: int, j: int| 0 <= i < j < after.len() implies precedes(
                after[i],
                after[j],
            ) by {
                if j < at {
                } else if j == at {
                } else if i < at {
                    assert(after[j] == before[j - 1]);
                    if j - 1 == at {
                        lemma_precedes_transitive(after[i], id@, after[j]);
                    } else {
                        assert(precedes(before[i], before[j - 1]));
                    }
                } else if i == at {
                    assert(after[j] == before[j - 1]);
                    if j - 1 > at {
                        lemma_precedes_transitive(id@, before[at as int], before[j - 1]);
                    }
                } else {
                    assert(after[i] == before[i - 1]);
                    assert(after[j] == before[j - 1]);
                }
            }
            assert(self.set() =~= old(self).set().insert(id@)) by {
                assert forall|name: Seq<char>| self.set().contains(name) implies old(
                    self,
                ).set().insert(id@).contains(name) by {
                    let i = choose|i: int| 0 <= i < after.len() && after[i] == name;
                    if i < at {
                        assert(before[i] == name);
                    } else if i > at {
                        assert(before[i - 1] == name);
                    }
                }
                assert forall|name: Seq<char>| old(self).set().insert(id@).contains(
                    name,
                ) implies self.set().contains(name) by {
                    if name == id@ {
                        assert(after[at as int] == name);
                    } else {
                        let i = choose|i: int| 0 <= i < before.len() && before[i] == name;
                        if i < at {
                            assert(after[i] == name);
                        } else {
                            assert(after[i + 1] == name);
                        }
                    }
                }
            }
        }
    }

    /// The extension that a model shows: the names of the shown symbols,
    /// without the quotation marks around them.
    pub fn from_model(model: &Model) -> (outcome: Result<Self, Error>)
        ensures
            outcome matches Ok(extension) && extension.wf() && extension.set() == name_set(
                shown_names(model.shown@),
            ),
    {
        let mut extension = Extension::empty();
        let mut i: usize = 0;
        let ghost names = shown_names(model.shown@);
        proof {
            assert(extension.set() =~= name_set(names.take(0)));
        }
        while i < model.shown.len()
            invariant
                i <= model.shown.len(),
                names == shown_names(model.shown@),
                extension.wf(),
                extension.set() == name_set(names.take(i as int)),
            decreases model.shown.len() - i,
        {
            let name = unquote(&model.shown[i]);
            extension.insert(name);
            proof {
                let so_far = names.take(i as int);
                let next = names.take(i + 1);
                assert(name_set(next) =~= name_set(so_far).insert(names[i as int])) by {
                    assert forall|name: Seq<char>| name_set(next).contains(name) implies name_set(
                        so_far,
                    ).insert(names[i as int]).contains(name) by {
                        let k = choose|k: int| 0 <= k < next.len() && next[k] == name;
                        if k < i {
                            assert(so_far[k] == name);
                        }
                    }
                    assert forall|name: Seq<char>|
                        name_set(so_far).insert(names[i as int]).contains(
                            name,
                        ) implies name_set(next).contains(name) by {
                        if name == names[i as int] {
                            assert(next[i as int] == name);
                        } else {
                            let k = choose|k: int| 0 <= k < so_far.len() && so_far[k] == name;
                            assert(next[k] == name);
                        }
                    }
                }
            }
            i += 1;
        }
        proof {
            assert(names.take(model.shown.len() as int) == names);
        }
        Ok(extension)
    }

    /// The extension that holds the arguments of the given names.
    pub fn from_iter(ids: Vec<String>) -> (extension: Self)
        ensures
            extension.wf(),
            extension.set() == name_set(Seq::new(ids@.len(), |i: int| ids@[i]@)),
    {
        let mut extension = Extension::empty();
        let mut i: usize = 0;
        let ghost names = Seq::new(ids@.len(), |i: int| ids@[i]@);
        proof {
            assert(extension.set() =~= name_set(names.take(0)));
        }
        while i < ids.len()
            invariant
                i <= ids.len(),
                names == Seq::new(ids@.len(), |i: int| ids@[i]@),
                extension.wf(),
                extension.set() == name_set(names.take(i as int)),
            decreases ids.len() - i,
        {
            extension.insert(ids[i].clone());
            proof {
                let so_far = names.take(i as int);
                let next = names.take(i + 1);
                assert(name_set(next) =~= name_set(so_far).insert(names[i as int])) by {
                    assert forall|name: Seq<char>| name_set(next).contains(name) implies name_set(
                        so_far,
                    ).insert(names[i as int]).contains(name) by {
                        let k = choose|k: int| 0 <= k < next.len() && next[k] == name;
                        if k < i {
                            assert(so_far[k] == name);
                        }
                    }
                    assert forall|name: Seq<char>|
                        name_set(so_far).insert(names[i as int]).contains(
                            name,
                        ) implies name_set(next).contains(name) by {
                        if name == names[i as int] {
                            assert(next[i as int] == name);
                        } else {
                            let k = choose|k: int| 0 <= k < so_far.len() && so_far[k] == name;
                            assert(next[k] == name);
                        }
                    }
                }
            }
            i += 1;
        }
        proof {
            assert(names.take(ids.len() as int) == names);
        }
        extension
    }
}

impl GenericExtension for Extension {
    type Arg = Argument;

    open spec fn holds(&self, arg: &Argument) -> bool {
        self.set().contains(arg.id@)
    }

    open spec fn text(&self) -> Seq<char> {
        "["@ + joined(self@) + "]"@
    }

    fn contains(&self, arg: &Argument) -> (found: bool) {
        self.contains_name(&arg.id)
    }

    fn format(&self) -> (text: String) {
        let mut text = String::from_str("[");
        let mut i: usize = 0;
        proof {
            assert(self@.take(0).len() == 0);
        }
        while i < self.atoms.len()
            invariant
                i <= self.atoms.len(),
                text@ == "["@ + joined(self@.take(i as int)),
            decreases self.atoms.len() - i,
        {
            proof {
                assert(self@.take(i + 1).drop_last() == self@.take(i as int));
                assert(self@.take(i + 1).last() == self@[i as int]);
                if i == 0 {
                    assert(self@.take(1)[0] == self@[0]);
                }
            }
            if i > 0 {
                text.append(",");
            }
            text.append(self.atoms[i].as_str());
            i += 1;
        }
        proof {
            assert(self@.take(self.atoms.len() as int) == self@);
        }
        text.append("]");
        text
    }
}

} // verus!
