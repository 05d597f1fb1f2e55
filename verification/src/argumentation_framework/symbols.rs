//! Arguments and attacks.
use core::cmp::Ordering;
use vstd::prelude::*;
use vstd::std_specs::cmp::{PartialEqSpecImpl, PartialOrdSpecImpl};
use vstd::string::StringExecFns;

use crate::text::{lemma_precedes_connected, precedes, rank, Rank};

verus! {

/// Lifecycle status of an argument or an attack.
#[derive(Debug, Clone, Copy, PartialEq, Eq, Structural)]
pub enum State {
    Dead,
    Alive,
}

impl State {
    /// The status that an element starts with: optional elements wait for
    /// an update that enables them, all others are alive for good.
    pub open spec fn initial(optional: bool) -> State {
        if optional {
            State::Dead
        } else {
            State::Alive
        }
    }

    /// Computes [`State::initial`].
    pub fn at_start(optional: bool) -> (state: State)
        ensures
            state == State::initial(optional),
    {
        if optional {
            State::Dead
        } else {
            State::Alive
        }
    }
}

/// What an update, an error or a command to the solver is about.
#[derive(Debug, Clone, PartialEq, Eq)]
pub enum Target {
    Argument { id: String },
    Attack { from: String, to: String },
}

impl Target {
    /// A copy of the target.
    pub fn clone_target(&self) -> (copy: Self)
        ensures
            copy@ == self@,
    {
        match self {
            Target::Argument { id } => Target::Argument { id: id.clone() },
            Target::Attack { from, to } => Target::Attack { from: from.clone(), to: to.clone() },
        }
    }
}

/// A [`Target`] as a plain value.
pub enum TargetView {
    Argument { id: Seq<char> },
    Attack { from: Seq<char>, to: Seq<char> },
}

impl View for Target {
    type V = TargetView;

    open spec fn view(&self) -> TargetView {
        match self {
            Target::Argument { id } => TargetView::Argument { id: id@ },
            Target::Attack { from, to } => TargetView::Attack { from: from@, to: to@ },
        }
    }
}

/// An argument: a node of the framework, known by its name.
///
/// Two arguments are the same if their names agree; whether an argument is
/// optional may change over time, its name may not.
#[derive(Debug, Eq)]
pub struct Argument {
    pub id: String,
    pub optional: bool,
}

/// An attack: an edge from one argument to another, known by its two ends.
/// An argument may attack itself.
#[derive(Debug, Eq)]
pub struct Attack {
    pub from: String,
    pub to: String,
    pub optional: bool,
}

/// An [`Argument`] as a plain value.
pub struct ArgumentView {
    pub id: Seq<char>,
    pub optional: bool,
}

/// An [`Attack`] as a plain value.
pub struct AttackView {
    pub from: Seq<char>,
    pub to: Seq<char>,
    pub optional: bool,
}

impl View for Argument {
    type V = ArgumentView;

    open spec fn view(&self) -> ArgumentView {
        ArgumentView { id: self.id@, optional: self.optional }
    }
}

impl View for Attack {
    type V = AttackView;

    open spec fn view(&self) -> AttackView {
        AttackView { from: self.from@, to: self.to@, optional: self.optional }
    }
}

/// The arguments as plain values.
pub open spec fn argument_views(args: Seq<Argument>) -> Seq<ArgumentView> {
    Seq::new(args.len(), |i: int| args[i]@)
}

/// The attacks as plain values.
pub open spec fn attack_views(attacks: Seq<Attack>) -> Seq<AttackView> {
    Seq::new(attacks.len(), |i: int| attacks[i]@)
}

/// The text by which the solver knows the argument named `id`.
pub open spec fn argument_symbol(id: Seq<char>) -> Seq<char> {
    "argument("@ + id + ")"@
}

/// The text by which the solver knows the attack from `from` to `to`.
pub open spec fn attack_symbol(from: Seq<char>, to: Seq<char>) -> Seq<char> {
    "attack("@ + from + ","@ + to + ")"@
}

impl Argument {
    pub fn new(id: &str, optional: bool) -> (argument: Self)
        ensures
            argument@ == (ArgumentView { id: id@, optional }),
    {
        Argument { id: String::from_str(id), optional }
    }

    /// This argument as the target of an update.
    pub fn target(&self) -> (target: Target)
        ensures
            target@ == (TargetView::Argument { id: self.id@ }),
    {
        Target::Argument { id: self.id.clone() }
    }

    /// The text by which the solver knows this argument.
    pub fn symbol(&self) -> (symbol: String)
        ensures
            symbol@ == argument_symbol(self.id@),
    {
        let mut symbol = String::from_str("argument(");
        symbol.append(self.id.as_str());
        symbol.append(")");
        symbol
    }
}

impl Attack {
    pub fn new(from: &str, to: &str, optional: bool) -> (attack: Self)
        ensures
            attack@ == (AttackView { from: from@, to: to@, optional }),
    {
        Attack { from: String::from_str(from), to: String::from_str(to), optional }
    }

    /// This attack as the target of an update.
    pub fn target(&self) -> (target: Target)
        ensures
            target@ == (TargetView::Attack { from: self.from@, to: self.to@ }),
    {
        Target::Attack { from: self.from.clone(), to: self.to.clone() }
    }

    /// The text by which the solver knows this attack.
    pub fn symbol(&self) -> (symbol: String)
        ensures
            symbol@ == attack_symbol(self.from@, self.to@),
    {
        let mut symbol = String::from_str("attack(");
        symbol.append(self.from.as_str());
        symbol.append(",");
        symbol.append(self.to.as_str());
        symbol.append(")");
        symbol
    }
}

impl Clone for Argument {
    fn clone(&self) -> (copy: Self)
        ensures
            copy == *self,
    {
        Argument { id: self.id.clone(), optional: self.optional }
    }
}

impl Clone for Attack {
    fn clone(&self) -> (copy: Self)
        ensures
            copy == *self,
    {
        Attack { from: self.from.clone(), to: self.to.clone(), optional: self.optional }
    }
}

impl PartialEq for Argument {
    fn eq(&self, other: &Self) -> (equal: bool) {
        self.id == other.id
    }
}

impl PartialEqSpecImpl for Argument {
    open spec fn obeys_eq_spec() -> bool {
        true
    }

    open spec fn eq_spec(&self, other: &Self) -> bool {
        self.id@ == other.id@
    }
}

impl PartialOrd for Argument {
    fn partial_cmp(&self, other: &Self) -> (order: Option<Ordering>) {
        proof {
            lemma_precedes_connected(self.id@, other.id@);
        }
        match rank(&self.id, &other.id) {
            Rank::Before => Some(Ordering::Less),
            Rank::Same => Some(Ordering::Equal),
            Rank::After => Some(Ordering::Greater),
        }
    }
}

impl PartialOrdSpecImpl for Argument {
    open spec fn obeys_partial_cmp_spec() -> bool {
        true
    }

    /// Arguments stand in the order of their names.
    open spec fn partial_cmp_spec(&self, other: &Self) -> Option<Ordering> {
        if precedes(self.id@, other.id@) {
            Some(Ordering::Less)
        } else if self.id@ == other.id@ {
            Some(Ordering::Equal)
        } else {
            Some(Ordering::Greater)
        }
    }
}

impl PartialEq for Attack {
    fn eq(&self, other: &Self) -> (equal: bool) {
        self.from == other.from && self.to == other.to
    }
}

impl PartialEqSpecImpl for Attack {
    open spec fn obeys_eq_spec() -> bool {
        true
    }

    open spec fn eq_spec(&self, other: &Self) -> bool {
        self.from@ == other.from@ && self.to@ == other.to@
    }
}

} // verus!
