//! The acceptance criteria for Dung's argumentation frameworks.
//!
//! Each criterion is stated twice: as a predicate on sets of arguments,
//! which says what the solver has to deliver, and as the logic program that
//! is handed to the solver. The programs speak of two predicates,
//! `argument(name)` and `attack(from, to)`, and show the accepted names.
use vstd::prelude::*;

use crate::argumentation_framework::extension::Extension;
use crate::argumentation_framework::symbols::{
    argument_views, attack_views, Argument, ArgumentView, Attack, AttackView,
};
use crate::semantics::{Admissible, Complete, ConflictFree, Ground, Kind, Semantics, Stable};

verus! {

/// A framework as a graph: the arguments that are alive and the attacks
/// that are alive.
pub struct Graph {
    pub arguments: Set<Seq<char>>,
    pub attacks: Set<(Seq<char>, Seq<char>)>,
}

impl Graph {
    /// Whether `from` attacks `to`: both are alive and so is the attack.
    pub open spec fn attacks(self, from: Seq<char>, to: Seq<char>) -> bool {
        self.arguments.contains(from) && self.arguments.contains(to) && self.attacks.contains(
            (from, to),
        )
    }

    /// Whether some member of `set` attacks `argument`.
    pub open spec fn defeated(self, set: Set<Seq<char>>, argument: Seq<char>) -> bool {
        exists|attacker: Seq<char>|
            set.contains(attacker) && #[trigger] self.attacks(attacker, argument)
    }

    /// Whether `set` attacks every attacker of `argument`.
    pub open spec fn defended(self, set: Set<Seq<char>>, argument: Seq<char>) -> bool {
        forall|attacker: Seq<char>| #[trigger]
            self.attacks(attacker, argument) ==> self.defeated(set, attacker)
    }

    /// `set` holds arguments of the framework, and none of them attacks
    /// another or itself.
    pub open spec fn conflict_free(self, set: Set<Seq<char>>) -> bool {
        &&& set.subset_of(self.arguments)
        &&& forall|a: Seq<char>, b: Seq<char>|
            set.contains(a) && set.contains(b) ==> !#[trigger] self.attacks(a, b)
    }

    /// `set` is conflict-free and defends each of its members.
    pub open spec fn admissible(self, set: Set<Seq<char>>) -> bool {
        &&& self.conflict_free(set)
        &&& forall|a: Seq<char>| set.contains(a) ==> #[trigger] self.defended(set, a)
    }

    /// `set` is admissible and holds every argument that it defends.
    pub open spec fn complete(self, set: Set<Seq<char>>) -> bool {
        &&& self.admissible(set)
        &&& forall|a: Seq<char>|
            self.arguments.contains(a) && #[trigger] self.defended(set, a) ==> set.contains(a)
    }

    /// `set` is conflict-free and attacks every argument outside it.
    pub open spec fn stable(self, set: Set<Seq<char>>) -> bool {
        &&& self.conflict_free(set)
        &&& forall|a: Seq<char>|
            self.arguments.contains(a) && !set.contains(a) ==> #[trigger] self.defeated(set, a)
    }

    /// `set` is complete and lies in every complete set.
    pub open spec fn ground(self, set: Set<Seq<char>>) -> bool {
        &&& self.complete(set)
        &&& forall|other: Set<Seq<char>>| #[trigger] self.complete(other) ==> set.subset_of(other)
    }

    /// Whether `set` is an extension of the framework under the criterion.
    pub open spec fn accepts(self, kind: Kind, set: Set<Seq<char>>) -> bool {
        match kind {
            Kind::ConflictFree => self.conflict_free(set),
            Kind::Admissible => self.admissible(set),
            Kind::Complete => self.complete(set),
            Kind::Stable => self.stable(set),
            Kind::Ground => self.ground(set),
        }
    }
}

/// A framework without arguments has the empty set as an extension under
/// every criterion, and no other set.
pub proof fn lemma_empty_framework(graph: Graph, kind: Kind, set: Set<Seq<char>>)
    requires
        graph.arguments == Set::<Seq<char>>::empty(),
    ensures
        graph.accepts(kind, set) <==> set == Set::<Seq<char>>::empty(),
{
    let nothing = Set::<Seq<char>>::empty();
    if set.subset_of(graph.arguments) {
        assert(set =~= nothing);
    }
    assert(graph.conflict_free(nothing));
    assert(graph.admissible(nothing));
    assert(graph.complete(nothing));
    assert(graph.stable(nothing));
    assert forall|other: Set<Seq<char>>| #[trigger] graph.complete(other) implies nothing.subset_of(
        other,
    ) by {}
    assert(graph.ground(nothing));
}

/// The graph that the given arguments and attacks make.
pub open spec fn graph(args: Seq<ArgumentView>, attacks: Seq<AttackView>) -> Graph {
    Graph {
        arguments: Set::new(
            |id: Seq<char>| exists|i: int| 0 <= i < args.len() && (#[trigger] args[i]).id == id,
        ),
        attacks: Set::new(
            |pair: (Seq<char>, Seq<char>)|
                exists|k: int|
                    0 <= k < attacks.len() && (#[trigger] attacks[k]).from == pair.0
                        && attacks[k].to == pair.1,
        ),
    }
}

/// A framework without arguments has the empty set as an extension under
/// every criterion, and no other set, whatever attacks it lists.
pub proof fn lemma_no_arguments(attacks: Seq<AttackView>, kind: Kind, set: Set<Seq<char>>)
    ensures
        graph(Seq::empty(), attacks).accepts(kind, set) <==> set == Set::<Seq<char>>::empty(),
{
    let g = graph(Seq::empty(), attacks);
    assert(g.arguments =~= Set::<Seq<char>>::empty());
    lemma_empty_framework(g, kind, set);
}

/// Whether one of the arguments is named `id`.
pub fn declares(args: &Vec<Argument>, id: &String) -> (found: bool)
    ensures
        found == graph(argument_views(args@), Seq::empty()).arguments.contains(id@),
{
    let mut i: usize = 0;
    while i < args.len()
        invariant
            i <= args.len(),
            forall|j: int| 0 <= j < i ==> (#[trigger] argument_views(args@)[j]).id != id@,
        decreases args.len() - i,
    {
        if args[i].id == *id {
            proof {
                assert(argument_views(args@)[i as int].id == id@);
            }
            return true;
        }
        i += 1;
    }
    false
}

/// Whether the attack at the place `k` counts: both of its ends are
/// arguments.
pub open spec fn counts(args: Seq<ArgumentView>, attacks: Seq<AttackView>, k: int) -> bool {
    &&& 0 <= k < attacks.len()
    &&& graph(args, attacks).arguments.contains(attacks[k].from)
    &&& graph(args, attacks).arguments.contains(attacks[k].to)
}

/// `from` attacks `to` exactly if an attack between them is listed that
/// counts.
pub proof fn lemma_attacks_listed(
    args: Seq<ArgumentView>,
    attacks: Seq<AttackView>,
    from: Seq<char>,
    to: Seq<char>,
)
    ensures
        graph(args, attacks).attacks(from, to) <==> exists|k: int|
            counts(args, attacks, k) && (#[trigger] attacks[k]).from == from && attacks[k].to == to,
{
    let g = graph(args, attacks);
    if g.attacks(from, to) {
        assert(g.attacks.contains((from, to)));
        let k = choose|k: int|
            0 <= k < attacks.len() && (#[trigger] attacks[k]).from == from && attacks[k].to == to;
        assert(counts(args, attacks, k));
    }
    if exists|k: int|
        counts(args, attacks, k) && (#[trigger] attacks[k]).from == from && attacks[k].to == to {
        let k = choose|k: int|
            counts(args, attacks, k) && (#[trigger] attacks[k]).from == from && attacks[k].to == to;
        assert(g.attacks.contains((attacks[k].from, attacks[k].to)));
    }
}

fn both_declared(args: &Vec<Argument>, attacks: &Vec<Attack>, k: usize) -> (both: bool)
    requires
        k < attacks.len(),
    ensures
        both == counts(argument_views(args@), attack_views(attacks@), k as int),
{
    proof {
        let a = argument_views(args@);
        assert(graph(a, attack_views(attacks@)).arguments =~= graph(a, Seq::empty()).arguments);
    }
    declares(args, &attacks[k].from) && declares(args, &attacks[k].to)
}

/// Whether some member of the extension attacks the argument named `id`.
pub fn defeated(args: &Vec<Argument>, attacks: &Vec<Attack>, extension: &Extension, id: &String) -> (yes:
    bool)
    ensures
        yes == graph(argument_views(args@), attack_views(attacks@)).defeated(extension.set(), id@),
{
    let ghost a = argument_views(args@);
    let ghost t = attack_views(attacks@);
    let ghost g = graph(a, t);
    let mut k: usize = 0;
    while k < attacks.len()
        invariant
            k <= attacks.len(),
            a == argument_views(args@),
            t == attack_views(attacks@),
            g == graph(a, t),
            forall|j: int|
                0 <= j < k ==> !(counts(a, t, j) && (#[trigger] t[j]).to == id@
                    && extension.set().contains(t[j].from)),
        decreases attacks.len() - k,
    {
        if attacks[k].to == *id && extension.contains_name(&attacks[k].from) && both_declared(
            args,
            attacks,
            k,
        ) {
            proof {
                lemma_attacks_listed(a, t, t[k as int].from, id@);
                assert(g.attacks(t[k as int].from, id@));
            }
            return true;
        }
        k += 1;
    }
    proof {
        if g.defeated(extension.set(), id@) {
            let attacker = choose|attacker: Seq<char>|
                extension.set().contains(attacker) && #[trigger] g.attacks(attacker, id@);
            lemma_attacks_listed(a, t, attacker, id@);
        }
    }
    false
}

/// Whether the extension attacks every attacker of the argument named
/// `id`.
pub fn defended(args: &Vec<Argument>, attacks: &Vec<Attack>, extension: &Extension, id: &String) -> (yes:
    bool)
    ensures
        yes == graph(argument_views(args@), attack_views(attacks@)).defended(extension.set(), id@),
{
    let ghost a = argument_views(args@);
    let ghost t = attack_views(attacks@);
    let ghost g = graph(a, t);
    let mut k: usize = 0;
    while k < attacks.len()
        invariant
            k <= attacks.len(),
            a == argument_views(args@),
            t == attack_views(attacks@),
            g == graph(a, t),
            forall|j: int|
                0 <= j < k && counts(a, t, j) && (#[trigger] t[j]).to == id@ ==> g.defeated(
                    extension.set(),
                    t[j].from,
                ),
        decreases attacks.len() - k,
    {
        if attacks[k].to == *id && both_declared(args, attacks, k) && !defeated(
            args,
            attacks,
            extension,
            &attacks[k].from,
        ) {
            proof {
                lemma_attacks_listed(a, t, t[k as int].from, id@);
                assert(g.attacks(t[k as int].from, id@));
            }
            return false;
        }
        k += 1;
    }
    proof {
        assert forall|attacker: Seq<char>| #[trigger] g.attacks(attacker, id@) implies g.defeated(
            extension.set(),
            attacker,
        ) by {
            lemma_attacks_listed(a, t, attacker, id@);
        }
    }
    true
}

/// Whether the extension is conflict-free in the framework that the
/// arguments and attacks make.
pub fn conflict_free(args: &Vec<Argument>, attacks: &Vec<Attack>, extension: &Extension) -> (yes: bool)
    ensures
        yes == graph(argument_views(args@), attack_views(attacks@)).conflict_free(extension.set()),
{
    let ghost a = argument_views(args@);
    let ghost t = attack_views(attacks@);
    let ghost g = graph(a, t);
    let mut i: usize = 0;
    while i < extension.len()
        invariant
            i <= extension@.len(),
            a == argument_views(args@),
            t == attack_views(attacks@),
            g == graph(a, t),
            forall|j: int| 0 <= j < i ==> g.arguments.contains(#[trigger] extension@[j]),
        decreases extension@.len() - i,
    {
        proof {
            assert(g.arguments =~= graph(a, Seq::empty()).arguments);
        }
        if !declares(args, extension.name(i)) {
            proof {
                assert(extension.set().contains(extension@[i as int]));
            }
            return false;
        }
        i += 1;
    }
    proof {
        assert(extension.set().subset_of(g.arguments)) by {
            assert forall|name: Seq<char>| extension.set().contains(name) implies g.arguments.contains(
                name,
            ) by {
                let j = choose|j: int| 0 <= j < extension@.len() && extension@[j] == name;
                assert(g.arguments.contains(extension@[j]));
            }
        }
    }
    let mut k: usize = 0;
    while k < attacks.len()
        invariant
            k <= attacks.len(),
            a == argument_views(args@),
            t == attack_views(attacks@),
            g == graph(a, t),
            extension.set().subset_of(g.arguments),
            forall|j: int|
                0 <= j < k ==> !(counts(a, t, j) && extension.set().contains((#[trigger] t[j]).from)
                    && extension.set().contains(t[j].to)),
        decreases attacks.len() - k,
    {
        if extension.contains_name(&attacks[k].from) && extension.contains_name(&attacks[k].to)
            && both_declared(args, attacks, k) {
            proof {
                lemma_attacks_listed(a, t, t[k as int].from, t[k as int].to);
                assert(g.attacks(t[k as int].from, t[k as int].to));
            }
            return false;
        }
        k += 1;
    }
    proof {
        assert forall|x: Seq<char>, y: Seq<char>|
            extension.set().contains(x) && extension.set().contains(y) implies !#[trigger] g.attacks(
            x,
            y,
        ) by {
            lemma_attacks_listed(a, t, x, y);
        }
    }
    true
}

/// Whether the extension is admissible in the framework that the arguments
/// and attacks make.
pub fn admissible(args: &Vec<Argument>, attacks: &Vec<Attack>, extension: &Extension) -> (yes: bool)
    ensures
        yes == graph(argument_views(args@), attack_views(attacks@)).admissible(extension.set()),
{
    if !conflict_free(args, attacks, extension) {
        return false;
    }
    let ghost g = graph(argument_views(args@), attack_views(attacks@));
    let mut i: usize = 0;
    while i < extension.len()
        invariant
            i <= extension@.len(),
            g == graph(argument_views(args@), attack_views(attacks@)),
            g.conflict_free(extension.set()),
            forall|j: int| 0 <= j < i ==> g.defended(extension.set(), #[trigger] extension@[j]),
        decreases extension@.len() - i,
    {
        if !defended(args, attacks, extension, extension.name(i)) {
            proof {
                assert(extension.set().contains(extension@[i as int]));
            }
            return false;
        }
        i += 1;
    }
    proof {
        assert forall|name: Seq<char>| extension.set().contains(name) implies #[trigger] g.defended(
            extension.set(),
            name,
        ) by {
            let j = choose|j: int| 0 <= j < extension@.len() && extension@[j] == name;
            assert(g.defended(extension.set(), extension@[j]));
        }
    }
    true
}

/// Whether the extension is complete in the framework that the arguments
/// and attacks make.
pub fn complete(args: &Vec<Argument>, attacks: &Vec<Attack>, extension: &Extension) -> (yes: bool)
    ensures
        yes == graph(argument_views(args@), attack_views(attacks@)).complete(extension.set()),
{
    if !admissible(args, attacks, extension) {
        return false;
    }
    let ghost a = argument_views(args@);
    let ghost g = graph(a, attack_views(attacks@));
    let mut i: usize = 0;
    while i < args.len()
        invariant
            i <= args.len(),
            a == argument_views(args@),
            g == graph(a, attack_views(attacks@)),
            g.admissible(extension.set()),
            forall|j: int|
                0 <= j < i && g.defended(extension.set(), (#[trigger] a[j]).id)
                    ==> extension.set().contains(a[j].id),
        decreases args.len() - i,
    {
        if defended(args, attacks, extension, &args[i].id) && !extension.contains_name(&args[i].id) {
            proof {
                assert(g.arguments.contains(a[i as int].id));
            }
            return false;
        }
        i += 1;
    }
    proof {
        assert forall|name: Seq<char>|
            g.arguments.contains(name) && #[trigger] g.defended(
                extension.set(),
                name,
            ) implies extension.set().contains(name) by {
            let j = choose|j: int| 0 <= j < a.len() && (#[trigger] a[j]).id == name;
            assert(extension.set().contains(a[j].id));
        }
    }
    true
}

/// Whether the extension is stable in the framework that the arguments and
/// attacks make.
pub fn stable(args: &Vec<Argument>, attacks: &Vec<Attack>, extension: &Extension) -> (yes: bool)
    ensures
        yes == graph(argument_views(args@), attack_views(attacks@)).stable(extension.set()),
{
    if !conflict_free(args, attacks, extension) {
        return false;
    }
    let ghost a = argument_views(args@);
    let ghost g = graph(a, attack_views(attacks@));
    let mut i: usize = 0;
    while i < args.len()
        invariant
            i <= args.len(),
            a == argument_views(args@),
            g == graph(a, attack_views(attacks@)),
            g.conflict_free(extension.set()),
            forall|j: int|
                0 <= j < i && !extension.set().contains((#[trigger] a[j]).id) ==> g.defeated(
                    extension.set(),
                    a[j].id,
                ),
        decreases args.len() - i,
    {
        if !extension.contains_name(&args[i].id) && !defeated(
            args,
            attacks,
            extension,
            &args[i].id,
        ) {
            proof {
                assert(g.arguments.contains(a[i as int].id));
            }
            return false;
        }
        i += 1;
    }
    proof {
        assert forall|name: Seq<char>|
            g.arguments.contains(name) && !extension.set().contains(name) implies #[trigger] g.defeated(
            extension.set(),
            name,
        ) by {
            let j = choose|j: int| 0 <= j < a.len() && (#[trigger] a[j]).id == name;
            assert(g.defeated(extension.set(), a[j].id));
        }
    }
    true
}

/// What a set defends, a larger set defends too.
pub proof fn lemma_defended_monotone(
    g: Graph,
    smaller: Set<Seq<char>>,
    larger: Set<Seq<char>>,
    argument: Seq<char>,
)
    requires
        smaller.subset_of(larger),
        g.defended(smaller, argument),
    ensures
        g.defended(larger, argument),
{
    assert forall|attacker: Seq<char>| #[trigger] g.attacks(attacker, argument) implies g.defeated(
        larger,
        attacker,
    ) by {
        assert(g.defeated(smaller, attacker));
        let c = choose|c: Seq<char>| smaller.contains(c) && #[trigger] g.attacks(c, attacker);
        assert(larger.contains(c));
    }
}

/// An admissible set stays admissible when an argument that it defends
/// joins it.
pub proof fn lemma_add_defended(g: Graph, set: Set<Seq<char>>, argument: Seq<char>)
    requires
        g.admissible(set),
        g.arguments.contains(argument),
        g.defended(set, argument),
    ensures
        g.admissible(set.insert(argument)),
{
    let grown = set.insert(argument);
    assert forall|x: Seq<char>, y: Seq<char>|
        grown.contains(x) && grown.contains(y) implies !#[trigger] g.attacks(x, y) by {
        if g.attacks(x, y) {
            assert(g.defended(set, y));
            assert(g.defeated(set, x));
            let c = choose|c: Seq<char>| set.contains(c) && #[trigger] g.attacks(c, x);
            assert(g.defended(set, x));
            assert(g.defeated(set, c));
            let d = choose|d: Seq<char>| set.contains(d) && #[trigger] g.attacks(d, c);
            assert(!g.attacks(d, c));
        }
    }
    assert forall|z: Seq<char>| grown.contains(z) implies #[trigger] g.defended(grown, z) by {
        assert(g.defended(set, z));
        lemma_defended_monotone(g, set, grown, z);
    }
}

/// A set that lies in every complete set still does when an argument that
/// it defends joins it.
pub proof fn lemma_add_defended_stays_least(g: Graph, set: Set<Seq<char>>, argument: Seq<char>)
    requires
        g.arguments.contains(argument),
        g.defended(set, argument),
        forall|other: Set<Seq<char>>| #[trigger] g.complete(other) ==> set.subset_of(other),
    ensures
        forall|other: Set<Seq<char>>| #[trigger]
            g.complete(other) ==> set.insert(argument).subset_of(other),
{
    assert forall|other: Set<Seq<char>>| #[trigger] g.complete(other) implies set.insert(
        argument,
    ).subset_of(other) by {
        assert(set.subset_of(other));
        lemma_defended_monotone(g, set, other, argument);
    }
}

/// How many of the flags are not set.
pub open spec fn unset(flags: Seq<bool>) -> nat
    decreases flags.len(),
{
    if flags.len() == 0 {
        0
    } else if flags.last() {
        unset(flags.drop_last())
    } else {
        unset(flags.drop_last()) + 1
    }
}

/// Setting a flag that was not set leaves one flag less that is not set.
pub proof fn lemma_set_flag(flags: Seq<bool>, i: int)
    requires
        0 <= i < flags.len(),
        !flags[i],
    ensures
        unset(flags) == unset(flags.update(i, true)) + 1,
    decreases flags.len(),
{
    let after = flags.update(i, true);
    if i == flags.len() - 1 {
        assert(after.drop_last() == flags.drop_last());
    } else {
        assert(after.drop_last() == flags.drop_last().update(i, true));
        lemma_set_flag(flags.drop_last(), i);
    }
}

/// Whether every name of `inner` is a name of `outer`.
pub fn within(inner: &Extension, outer: &Extension) -> (yes: bool)
    ensures
        yes == inner.set().subset_of(outer.set()),
{
    let mut i: usize = 0;
    while i < inner.len()
        invariant
            i <= inner@.len(),
            forall|j: int| 0 <= j < i ==> outer.set().contains(#[trigger] inner@[j]),
        decreases inner@.len() - i,
    {
        if !outer.contains_name(inner.name(i)) {
            proof {
                assert(inner.set().contains(inner@[i as int]));
            }
            return false;
        }
        i += 1;
    }
    proof {
        assert forall|name: Seq<char>| inner.set().contains(name) implies outer.set().contains(
            name,
        ) by {
            let j = choose|j: int| 0 <= j < inner@.len() && inner@[j] == name;
            assert(outer.set().contains(inner@[j]));
        }
    }
    true
}

/// The ground extension of the framework that the arguments and attacks
/// make: it grows from the empty set by taking in, one after the other,
/// whatever it defends, until nothing is left to take in.
pub fn least_complete(args: &Vec<Argument>, attacks: &Vec<Attack>) -> (least: Extension)
    ensures
        least.wf(),
        graph(argument_views(args@), attack_views(attacks@)).ground(least.set()),
{
    let ghost a = argument_views(args@);
    let ghost g = graph(a, attack_views(attacks@));
    let mut least = Extension::empty();
    let mut taken: Vec<bool> = Vec::new();
    while taken.len() < args.len()
        invariant
            taken@.len() <= args.len(),
            forall|j: int| 0 <= j < taken@.len() ==> !taken@[j],
        decreases args.len() - taken.len(),
    {
        taken.push(false);
    }
    let mut left: usize = args.len();
    proof {
        lemma_unset_all(taken@);
        assert(least.set() =~= Set::<Seq<char>>::empty());
        assert(g.admissible(least.set()));
    }
    loop
        invariant
            a == argument_views(args@),
            g == graph(a, attack_views(attacks@)),
            taken@.len() == args.len(),
            left == unset(taken@),
            least.wf(),
            g.admissible(least.set()),
            forall|other: Set<Seq<char>>| #[trigger] g.complete(other) ==> least.set().subset_of(other),
            forall|j: int| 0 <= j < a.len() && #[trigger] taken@[j] ==> least.set().contains(a[j].id),
        ensures
            least.wf(),
            g.ground(least.set()),
        decreases left,
    {
        let mut i: usize = 0;
        let mut found = false;
        while i < args.len() && !found
            invariant
                i <= args.len(),
                a == argument_views(args@),
                g == graph(a, attack_views(attacks@)),
                taken@.len() == args.len(),
                forall|j: int|
                    0 <= j < i && !#[trigger] taken@[j] ==> !g.defended(least.set(), a[j].id),
                found ==> i < args.len() && !taken@[i as int] && g.defended(
                    least.set(),
                    a[i as int].id,
                ),
            decreases args.len() - i + if found { 0int } else { 1int },
        {
            if !taken[i] && defended(args, attacks, &least, &args[i].id) {
                found = true;
            } else {
                i += 1;
            }
        }
        if !found {
            proof {
                assert forall|name: Seq<char>|
                    g.arguments.contains(name) && #[trigger] g.defended(
                        least.set(),
                        name,
                    ) implies least.set().contains(name) by {
                    let j = choose|j: int| 0 <= j < a.len() && (#[trigger] a[j]).id == name;
                    if !taken@[j] {
                        assert(!g.defended(least.set(), a[j].id));
                    }
                }
            }
            break ;
        }
        proof {
            assert(g.arguments.contains(a[i as int].id));
            lemma_add_defended(g, least.set(), a[i as int].id);
            lemma_add_defended_stays_least(g, least.set(), a[i as int].id);
            lemma_set_flag(taken@, i as int);
        }
        least.insert(args[i].id.clone());
        taken.set(i, true);
        left = left - 1;
    }
    least
}

/// Where no flag is set, as many flags are not set as there are flags.
pub proof fn lemma_unset_all(flags: Seq<bool>)
    requires
        forall|j: int| 0 <= j < flags.len() ==> !flags[j],
    ensures
        unset(flags) == flags.len(),
    decreases flags.len(),
{
    if flags.len() > 0 {
        lemma_unset_all(flags.drop_last());
    }
}

/// Whether the extension is the ground extension of the framework that the
/// arguments and attacks make.
pub fn ground(args: &Vec<Argument>, attacks: &Vec<Attack>, extension: &Extension) -> (yes: bool)
    ensures
        yes == graph(argument_views(args@), attack_views(attacks@)).ground(extension.set()),
{
    let least = least_complete(args, attacks);
    let ghost g = graph(argument_views(args@), attack_views(attacks@));
    let yes = within(extension, &least) && within(&least, extension);
    proof {
        if yes {
            assert(extension.set() =~= least.set());
        }
        if g.ground(extension.set()) {
            assert(g.complete(least.set()));
            assert(g.complete(extension.set()));
            assert(extension.set().subset_of(least.set()));
            assert(least.set().subset_of(extension.set()));
        }
    }
    yes
}

/// Whether the extension is one of the framework that the arguments and
/// attacks make, under the given criterion.
pub fn accepts(kind: Kind, args: &Vec<Argument>, attacks: &Vec<Attack>, extension: &Extension) -> (yes:
    bool)
    ensures
        yes == graph(argument_views(args@), attack_views(attacks@)).accepts(kind, extension.set()),
{
    match kind {
        Kind::ConflictFree => conflict_free(args, attacks, extension),
        Kind::Admissible => admissible(args, attacks, extension),
        Kind::Complete => complete(args, attacks, extension),
        Kind::Stable => stable(args, attacks, extension),
        Kind::Ground => ground(args, attacks, extension),
    }
}

/// The program whose answer sets are the conflict-free sets.
pub const CONFLICT_FREE: &'static str = "
        %% Guess a set S of arguments
        in(X) :- not out(X), argument(X).
        out(X) :- not in(X), argument(X).

        %% S has to be conflict-free
        :- in(X), in(Y), attack(X,Y).
    ";

/// The program whose answer sets are the admissible sets.
pub const ADMISSIBLE: &'static str = "
        %% Guess a set S of arguments
        in(X) :- not out(X), argument(X).
        out(X) :- not in(X), argument(X).

        %% S has to be conflict-free
        :- in(X), in(Y), attack(X,Y).

        %% The argument X is defeated by the set S
        defeated(X) :- in(Y), attack(Y,X).

        %% The argument X is not defended by S
        not_defended(X) :- attack(Y,X), argument(Y), not defeated(Y).

        %% All arguments in S need to be defended by S
        :- in(X), not_defended(X).
    ";

/// The program whose answer sets are the complete sets.
pub const COMPLETE: &'static str = "
        %% Guess a set S of arguments
        in(X) :- not out(X), argument(X).
        out(X) :- not in(X), argument(X).

        %% S has to be conflict-free
        :- in(X), in(Y), attack(X,Y).

        %% The argument X is defeated by the set S
        defeated(X) :- in(Y), attack(Y,X).

        %% The argument X is not defended by S
        not_defended(X) :- attack(Y,X), argument(Y), not defeated(Y).

        %% All arguments in S need to be defended by S
        :- in(X), not_defended(X).

        %% Every argument that S defends has to be in S
        :- out(X), not not_defended(X).
    ";

/// The program whose answer sets are the stable sets.
pub const STABLE: &'static str = "
        %% Guess a set S of arguments
        in(X) :- not out(X), argument(X).
        out(X) :- not in(X), argument(X).

        %% S has to be conflict-free
        :- in(X), in(Y), attack(X,Y).

        %% The argument X is defeated by the set S
        defeated(X) :- in(Y), attack(Y,X).

        %% Every argument outside S has to be defeated by S
        :- out(X), not defeated(X).
    ";

/// The program whose answer sets are the the ground set.
pub const GROUND: &'static str = "
        %% The argument X is defeated by the set S
        defeated(X) :- in(Y), attack(Y,X).

        %% S is the least set that holds every argument all of whose
        %% attackers it defeats
        in(X) :- argument(X), defeated(Y) : attack(Y,X), argument(Y).
    ";

/// A criterion for Dung's argumentation frameworks.
///
/// The solving happens in the following steps:
///   1. The base program is added and grounded once.
///   2. The atoms of the optional elements are switched on and off.
///   3. The solver enumerates the answer sets; each shows one extension.
pub trait ArgumentationFrameworkSemantic: Semantics {
    /// The text of the base program.
    spec fn program() -> Seq<char>;

    /// The base program, grounded once before the first solving.
    fn base() -> (program: &'static str)
        ensures
            program@ == Self::program(),
    ;
}

impl ArgumentationFrameworkSemantic for ConflictFree {
    open spec fn program() -> Seq<char> {
        CONFLICT_FREE@
    }

    fn base() -> (program: &'static str) {
        CONFLICT_FREE
    }
}

impl ArgumentationFrameworkSemantic for Admissible {
    open spec fn program() -> Seq<char> {
        ADMISSIBLE@
    }

    fn base() -> (program: &'static str) {
        ADMISSIBLE
    }
}

impl ArgumentationFrameworkSemantic for Complete {
    open spec fn program() -> Seq<char> {
        COMPLETE@
    }

    fn base() -> (program: &'static str) {
        COMPLETE
    }
}

impl ArgumentationFrameworkSemantic for Stable {
    open spec fn program() -> Seq<char> {
        STABLE@
    }

    fn base() -> (program: &'static str) {
        STABLE
    }
}

impl ArgumentationFrameworkSemantic for Ground {
    open spec fn program() -> Seq<char> {
        GROUND@
    }

    fn base() -> (program: &'static str) {
        GROUND
    }
}

} // verus!
