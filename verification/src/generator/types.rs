//! Numbered arguments and attacks, as the generator produces them.
use core::cmp::Ordering;
use core::ops::Add;
use vstd::prelude::*;
use vstd::std_specs::cmp::{PartialEqSpecImpl, PartialOrdSpecImpl};
use vstd::std_specs::ops::AddSpecImpl;
use vstd::string::StringExecFns;

use crate::argumentation_framework::symbols::State;
use crate::text::{decimal, push_decimal};

verus! {

/// Every generated argument is named by this prefix and its number.
pub const ARGUMENT_PREFIX: &'static str = "a";

/// A numbered argument. Two arguments are the same if their numbers agree.
#[derive(Debug, Clone, Copy, Eq)]
pub struct Argument {
    pub id: usize,
    pub optional: bool,
}

/// A numbered attack. Two attacks are the same if both ends agree.
#[derive(Debug, Clone, Copy, Eq)]
pub struct Attack {
    pub from: usize,
    pub to: usize,
    pub optional: bool,
}

pub type ArgumentWithState = (Argument, State);

pub type AttackWithState = (Attack, State);

/// The name of the argument with number `id`.
pub open spec fn name_of(id: usize) -> Seq<char> {
    ARGUMENT_PREFIX@ + decimal(id as nat)
}

fn name_string(id: usize) -> (name: String)
    ensures
        name@ == name_of(id),
{
    let mut name = String::from_str(ARGUMENT_PREFIX);
    push_decimal(&mut name, id);
    name
}

impl Argument {
    pub fn new(id: usize, optional: bool) -> (argument: Self)
        ensures
            argument.id == id,
            argument.optional == optional,
    {
        Self { id, optional }
    }

    pub fn name(&self) -> (name: String)
        ensures
            name@ == name_of(self.id),
    {
        name_string(self.id)
    }
}

impl Attack {
    pub fn from_raw(from: usize, to: usize, optional: bool) -> (attack: Self)
        ensures
            attack.from == from,
            attack.to == to,
            attack.optional == optional,
    {
        Self { from, to, optional }
    }

    /// The name of the attacking argument.
    pub fn from(&self) -> (name: String)
        ensures
            name@ == name_of(self.from),
    {
        name_string(self.from)
    }

    /// The name of the attacked argument.
    pub fn to(&self) -> (name: String)
        ensures
            name@ == name_of(self.to),
    {
        name_string(self.to)
    }

    /// Whether `argument` is one of the two ends of this attack.
    pub open spec fn touches(&self, argument: &Argument) -> bool {
        self.from == argument.id || self.to == argument.id
    }

    pub fn contains(&self, argument: &Argument) -> (touching: bool)
        ensures
            touching == self.touches(argument),
    {
        self.from == argument.id || self.to == argument.id
    }
}

impl PartialEq for Argument {
    fn eq(&self, other: &Self) -> (equal: bool) {
        self.id == other.id
    }
}

impl PartialEqSpecImpl for Argument {
    open spec fn obeys_eq_spec() -> bool {
        true
    }

    open spec fn eq_spec(&self, other: &Self) -> bool {
        self.id == other.id
    }
}

impl PartialEq for Attack {
    fn eq(&self, other: &Self) -> (equal: bool) {
        self.from == other.from && self.to == other.to
    }
}

impl PartialEqSpecImpl for Attack {
    open spec fn obeys_eq_spec() -> bool {
        true
    }

    open spec fn eq_spec(&self, other: &Self) -> bool {
        self.from == other.from && self.to == other.to
    }
}

impl PartialOrd for Argument {
    fn partial_cmp(&self, other: &Self) -> (order: Option<Ordering>) {
        if self.id < other.id {
            Some(Ordering::Less)
        } else if self.id == other.id {
            Some(Ordering::Equal)
        } else {
            Some(Ordering::Greater)
        }
    }
}

impl PartialOrdSpecImpl for Argument {
    open spec fn obeys_partial_cmp_spec() -> bool {
        true
    }

    open spec fn partial_cmp_spec(&self, other: &Self) -> Option<Ordering> {
        if self.id < other.id {
            Some(Ordering::Less)
        } else if self.id == other.id {
            Some(Ordering::Equal)
        } else {
            Some(Ordering::Greater)
        }
    }
}

impl Add<usize> for Argument {
    type Output = Self;

    /// The argument `rhs` numbers further on, with the same optional flag.
    fn add(self, rhs: usize) -> (argument: Self) {
        let Argument { id, optional } = self;
        Self { id: id + rhs, optional }
    }
}

impl AddSpecImpl<usize> for Argument {
    open spec fn obeys_add_spec() -> bool {
        true
    }

    open spec fn add_req(self, rhs: usize) -> bool {
        self.id + rhs <= usize::MAX
    }

    open spec fn add_spec(self, rhs: usize) -> Self {
        Argument { id: (self.id + rhs) as usize, optional: self.optional }
    }
}

impl Default for Argument {
    fn default() -> (argument: Self)
        ensures
            argument.id == 1,
            !argument.optional,
    {
        Self { id: 1, optional: false }
    }
}

} // verus!
