//! The lines of an update file.
use rand::rngs::SmallRng;
use vstd::prelude::*;
use vstd::string::StringExecFns;

use crate::argumentation_framework::symbols::State;
use crate::generator::types::{name_of, Argument, ArgumentWithState, Attack, AttackWithState};
use crate::generator::{flip, pick_index, Format, Probability};

verus! {

/// One line of an update file.
#[derive(Debug, Clone)]
pub enum UpdateLine {
    /// Enable the argument and, with it, the listed attacks.
    EnableArgument(Argument, Vec<Attack>),
    DisableArgument(Argument),
    EnableAttack(Attack),
    DisableAttack(Attack),
}

/// The two ends of an attack in the explicit format: `att(a1, a2)`.
pub open spec fn apx_attack_text(attack: Attack) -> Seq<char> {
    "att("@ + name_of(attack.from) + ", "@ + name_of(attack.to) + ")"@
}

/// An argument in the explicit format: `arg(a1)`.
pub open spec fn apx_argument_text(argument: Argument) -> Seq<char> {
    "arg("@ + name_of(argument.id) + ")"@
}

/// The two ends of an attack in the terse format: `a1 a2`.
pub open spec fn tgf_attack_text(attack: Attack) -> Seq<char> {
    name_of(attack.from) + " "@ + name_of(attack.to)
}

/// The attacks that an enabled argument brings along, each behind a colon.
pub open spec fn chain_text(attacks: Seq<Attack>, format: Format) -> Seq<char>
    decreases attacks.len(),
{
    if attacks.len() == 0 {
        Seq::empty()
    } else {
        chain_text(attacks.drop_last(), format) + ":"@ + match format {
            Format::Apx => apx_attack_text(attacks.last()),
            Format::Tgf => tgf_attack_text(attacks.last()),
        }
    }
}

pub(crate) fn apx_attack_string(attack: &Attack) -> (text: String)
    ensures
        text@ == apx_attack_text(*attack),
{
    let mut text = String::from_str("att(");
    text.append(attack.from().as_str());
    text.append(", ");
    text.append(attack.to().as_str());
    text.append(")");
    text
}

pub(crate) fn apx_argument_string(argument: &Argument) -> (text: String)
    ensures
        text@ == apx_argument_text(*argument),
{
    let mut text = String::from_str("arg(");
    text.append(argument.name().as_str());
    text.append(")");
    text
}

pub(crate) fn tgf_attack_string(attack: &Attack) -> (text: String)
    ensures
        text@ == tgf_attack_text(*attack),
{
    let mut text = attack.from();
    text.append(" ");
    text.append(attack.to().as_str());
    text
}

fn append_chain(text: &mut String, attacks: &Vec<Attack>, format: Format)
    ensures
        final(text)@ == old(text)@ + chain_text(attacks@, format),
{
    let mut i: usize = 0;
    while i < attacks.len()
        invariant
            i <= attacks.len(),
            text@ == old(text)@ + chain_text(attacks@.take(i as int), format),
        decreases attacks.len() - i,
    {
        proof {
            assert(attacks@.take(i + 1).drop_last() == attacks@.take(i as int));
        }
        text.append(":");
        match format {
            Format::Apx => text.append(apx_attack_string(&attacks[i]).as_str()),
            Format::Tgf => text.append(tgf_attack_string(&attacks[i]).as_str()),
        }
        i += 1;
    }
    proof {
        assert(attacks@.take(attacks.len() as int) == attacks@);
    }
}

impl UpdateLine {
    /// The line as it stands in an update file of the given format. The
    /// explicit form ends in a period; the terse form has none.
    pub open spec fn text(self, format: Format) -> Seq<char> {
        match format {
            Format::Apx => match self {
                UpdateLine::EnableArgument(argument, attacks) => "+"@ + apx_argument_text(argument)
                    + chain_text(attacks@, format) + "."@,
                UpdateLine::DisableArgument(argument) => "-"@ + apx_argument_text(argument) + "."@,
                UpdateLine::EnableAttack(attack) => "+"@ + apx_attack_text(attack) + "."@,
                UpdateLine::DisableAttack(attack) => "-"@ + apx_attack_text(attack) + "."@,
            },
            Format::Tgf => match self {
                UpdateLine::EnableArgument(argument, attacks) => "+"@ + name_of(argument.id)
                    + chain_text(attacks@, format),
                UpdateLine::DisableArgument(argument) => "-"@ + name_of(argument.id),
                UpdateLine::EnableAttack(attack) => "+"@ + tgf_attack_text(attack),
                UpdateLine::DisableAttack(attack) => "-"@ + tgf_attack_text(attack),
            },
        }
    }

    /// Format this update line in the requested output format.
    pub fn format(&self, format: Format) -> (line: String)
        ensures
            line@ == self.text(format),
    {
        match format {
            Format::Apx => match self {
                UpdateLine::EnableArgument(argument, attacks) => {
                    let mut line = String::from_str("+");
                    line.append(apx_argument_string(argument).as_str());
                    append_chain(&mut line, attacks, format);
                    line.append(".");
                    line
                },
                UpdateLine::DisableArgument(argument) => {
                    let mut line = String::from_str("-");
                    line.append(apx_argument_string(argument).as_str());
                    line.append(".");
                    line
                },
                UpdateLine::EnableAttack(attack) => {
                    let mut line = String::from_str("+");
                    line.append(apx_attack_string(attack).as_str());
                    line.append(".");
                    line
                },
                UpdateLine::DisableAttack(attack) => {
                    let mut line = String::from_str("-");
                    line.append(apx_attack_string(attack).as_str());
                    line.append(".");
                    line
                },
            },
            Format::Tgf => match self {
                UpdateLine::EnableArgument(argument, attacks) => {
                    let mut line = String::from_str("+");
                    line.append(argument.name().as_str());
                    append_chain(&mut line, attacks, format);
                    line
                },
                UpdateLine::DisableArgument(argument) => {
                    let mut line = String::from_str("-");
                    line.append(argument.name().as_str());
                    line
                },
                UpdateLine::EnableAttack(attack) => {
                    let mut line = String::from_str("+");
                    line.append(tgf_attack_string(attack).as_str());
                    line
                },
                UpdateLine::DisableAttack(attack) => {
                    let mut line = String::from_str("-");
                    line.append(tgf_attack_string(attack).as_str());
                    line
                },
            },
        }
    }
}

/// An argument entry with the given status and, if asked for, marked optional.
pub open spec fn argument_with(state: State, optional_only: bool) -> spec_fn(
    ArgumentWithState,
) -> bool {
    |entry: ArgumentWithState| entry.1 == state && (optional_only ==> entry.0.optional)
}

/// An attack entry with the given status and, if asked for, marked optional.
pub open spec fn attack_with(state: State, optional_only: bool) -> spec_fn(AttackWithState) -> bool {
    |entry: AttackWithState| entry.1 == state && (optional_only ==> entry.0.optional)
}

/// An attack entry one of whose ends is `argument`.
pub open spec fn attack_touching(argument: Argument) -> spec_fn(AttackWithState) -> bool {
    |entry: AttackWithState| entry.0.touches(&argument)
}

/// Every element that a filter keeps stands in the sequence it was taken from.
pub proof fn lemma_filter_member<A>(items: Seq<A>, keep: spec_fn(A) -> bool, k: int)
    requires
        0 <= k < items.filter(keep).len(),
    ensures
        keep(items.filter(keep)[k]),
        exists|j: int| 0 <= j < items.len() && items[j] == items.filter(keep)[k],
    decreases items.len(),
{
    reveal(Seq::filter);
    if items.len() > 0 {
        let front = items.drop_last().filter(keep);
        if k < front.len() {
            lemma_filter_member(items.drop_last(), keep, k);
            let j = choose|j: int| 0 <= j < items.drop_last().len() && items.drop_last()[j] == front[k];
            assert(items[j] == items.filter(keep)[k]);
        } else {
            assert(items[items.len() - 1] == items.filter(keep)[k]);
        }
    }
}

/// A filter keeps nothing exactly if no element passes.
pub proof fn lemma_filter_empty<A>(items: Seq<A>, keep: spec_fn(A) -> bool)
    ensures
        items.filter(keep).len() == 0 <==> forall|j: int| 0 <= j < items.len() ==> !keep(items[j]),
    decreases items.len(),
{
    reveal(Seq::filter);
    if items.len() > 0 {
        lemma_filter_empty(items.drop_last(), keep);
        if items.filter(keep).len() == 0 {
            assert forall|j: int| 0 <= j < items.len() implies !keep(items[j]) by {
                if j < items.len() - 1 {
                    assert(items.drop_last()[j] == items[j]);
                }
            }
        } else {
            if keep(items.last()) {
                assert(keep(items[items.len() - 1]));
            } else {
                let j = choose|j: int| 0 <= j < items.drop_last().len() && keep(items.drop_last()[j]);
                assert(keep(items[j]));
            }
        }
    }
}

fn arguments_with(args: &Vec<ArgumentWithState>, state: State, optional_only: bool) -> (found: Vec<
    ArgumentWithState,
>)
    ensures
        found@ == args@.filter(argument_with(state, optional_only)),
{
    let mut found: Vec<ArgumentWithState> = Vec::new();
    let mut i: usize = 0;
    proof {
        reveal(Seq::filter);
        assert(args@.take(0).len() == 0);
    }
    while i < args.len()
        invariant
            i <= args.len(),
            found@ == args@.take(i as int).filter(argument_with(state, optional_only)),
        decreases args.len() - i,
    {
        proof {
            reveal(Seq::filter);
            assert(args@.take(i + 1).drop_last() == args@.take(i as int));
        }
        let entry = args[i];
        if entry.1 == state && (!optional_only || entry.0.optional) {
            found.push(entry);
        }
        i += 1;
    }
    proof {
        assert(args@.take(args.len() as int) == args@);
    }
    found
}

fn attacks_with(atts: &Vec<AttackWithState>, state: State, optional_only: bool) -> (found: Vec<
    AttackWithState,
>)
    ensures
        found@ == atts@.filter(attack_with(state, optional_only)),
{
    let mut found: Vec<AttackWithState> = Vec::new();
    let mut i: usize = 0;
    proof {
        reveal(Seq::filter);
        assert(atts@.take(0).len() == 0);
    }
    while i < atts.len()
        invariant
            i <= atts.len(),
            found@ == atts@.take(i as int).filter(attack_with(state, optional_only)),
        decreases atts.len() - i,
    {
        proof {
            reveal(Seq::filter);
            assert(atts@.take(i + 1).drop_last() == atts@.take(i as int));
        }
        let entry = atts[i];
        if entry.1 == state && (!optional_only || entry.0.optional) {
            found.push(entry);
        }
        i += 1;
    }
    proof {
        assert(atts@.take(atts.len() as int) == atts@);
    }
    found
}

fn attacks_touching(atts: &Vec<AttackWithState>, argument: &Argument) -> (found: Vec<
    AttackWithState,
>)
    ensures
        found@ == atts@.filter(attack_touching(*argument)),
{
    let mut found: Vec<AttackWithState> = Vec::new();
    let mut i: usize = 0;
    proof {
        reveal(Seq::filter);
        assert(atts@.take(0).len() == 0);
    }
    while i < atts.len()
        invariant
            i <= atts.len(),
            found@ == atts@.take(i as int).filter(attack_touching(*argument)),
        decreases atts.len() - i,
    {
        proof {
            reveal(Seq::filter);
            assert(atts@.take(i + 1).drop_last() == atts@.take(i as int));
        }
        let entry = atts[i];
        if entry.0.contains(argument) {
            found.push(entry);
        }
        i += 1;
    }
    proof {
        assert(atts@.take(atts.len() as int) == atts@);
    }
    found
}

/// The attacks of `candidates` whose coin, at the same place in `coins`,
/// shows heads; in the order of `candidates`.
pub open spec fn flagged(candidates: Seq<AttackWithState>, coins: Seq<bool>) -> Seq<Attack>
    recommends
        candidates.len() == coins.len(),
    decreases candidates.len(),
{
    if candidates.len() == 0 {
        Seq::empty()
    } else if coins.last() {
        flagged(candidates.drop_last(), coins.drop_last()).push(candidates.last().0)
    } else {
        flagged(candidates.drop_last(), coins.drop_last())
    }
}

/// Every attack that [`flagged`] keeps is one of the candidates.
pub proof fn lemma_flagged_member(candidates: Seq<AttackWithState>, coins: Seq<bool>, k: int)
    requires
        candidates.len() == coins.len(),
        0 <= k < flagged(candidates, coins).len(),
    ensures
        exists|j: int| 0 <= j < candidates.len() && candidates[j].0 == flagged(candidates, coins)[k],
    decreases candidates.len(),
{
    if candidates.len() > 0 {
        let front = flagged(candidates.drop_last(), coins.drop_last());
        if k < front.len() {
            lemma_flagged_member(candidates.drop_last(), coins.drop_last(), k);
            let j = choose|j: int|
                0 <= j < candidates.drop_last().len() && candidates.drop_last()[j].0 == front[k];
            assert(candidates[j].0 == flagged(candidates, coins)[k]);
        } else {
            assert(candidates[candidates.len() - 1].0 == flagged(candidates, coins)[k]);
        }
    }
}

/// There is no kind of update line on offer exactly if nothing is dead and
/// nothing that is optional is alive.
pub proof fn lemma_nothing_on_offer(args: Seq<ArgumentWithState>, atts: Seq<AttackWithState>)
    ensures
        UpdateLine::kinds_on_offer(args, atts).len() == 0 <==> {
            &&& forall|i: int|
                0 <= i < args.len() ==> (#[trigger] args[i]).1 == State::Alive && !args[i].0.optional
            &&& forall|j: int|
                0 <= j < atts.len() ==> (#[trigger] atts[j]).1 == State::Alive && !atts[j].0.optional
        },
{
    lemma_filter_empty(args, argument_with(State::Dead, false));
    lemma_filter_empty(atts, attack_with(State::Dead, false));
    lemma_filter_empty(args, argument_with(State::Alive, true));
    lemma_filter_empty(atts, attack_with(State::Alive, true));
    let dead_args = forall|i: int|
        0 <= i < args.len() ==> !argument_with(State::Dead, false)(#[trigger] args[i]);
    let dead_atts = forall|j: int|
        0 <= j < atts.len() ==> !attack_with(State::Dead, false)(#[trigger] atts[j]);
    let live_args = forall|i: int|
        0 <= i < args.len() ==> !argument_with(State::Alive, true)(#[trigger] args[i]);
    let live_atts = forall|j: int|
        0 <= j < atts.len() ==> !attack_with(State::Alive, true)(#[trigger] atts[j]);
    if UpdateLine::kinds_on_offer(args, atts).len() == 0 {
        assert(dead_args && dead_atts && live_args && live_atts);
        assert forall|i: int| 0 <= i < args.len() implies (#[trigger] args[i]).1 == State::Alive
            && !args[i].0.optional by {
            assert(!argument_with(State::Dead, false)(args[i]));
            assert(!argument_with(State::Alive, true)(args[i]));
        }
        assert forall|j: int| 0 <= j < atts.len() implies (#[trigger] atts[j]).1 == State::Alive
            && !atts[j].0.optional by {
            assert(!attack_with(State::Dead, false)(atts[j]));
            assert(!attack_with(State::Alive, true)(atts[j]));
        }
    }
}

/// The options that [`UpdateLine::generate`] chooses between.
#[derive(Debug, Clone, Copy, PartialEq, Eq, Structural)]
pub enum UpdateKind {
    EnableArgument,
    DisableArgument,
    EnableAttack,
    DisableAttack,
}

impl UpdateLine {
    /// Whether the line is a legal edit of the framework: it enables what is
    /// dead and disables what is optional and alive; an enabled argument
    /// brings along only dead attacks that touch it.
    pub open spec fn applicable(self, args: Seq<ArgumentWithState>, atts: Seq<AttackWithState>) -> bool {
        match self {
            UpdateLine::EnableArgument(argument, attacks) => {
                &&& exists|i: int| 0 <= i < args.len() && args[i] == (argument, State::Dead)
                &&& forall|k: int|
                    0 <= k < attacks@.len() ==> (#[trigger] attacks@[k]).touches(&argument)
                        && exists|j: int|
                        0 <= j < atts.len() && atts[j] == (attacks@[k], State::Dead)
            },
            UpdateLine::DisableArgument(argument) => {
                &&& argument.optional
                &&& exists|i: int| 0 <= i < args.len() && args[i] == (argument, State::Alive)
            },
            UpdateLine::EnableAttack(attack) => {
                exists|j: int| 0 <= j < atts.len() && atts[j] == (attack, State::Dead)
            },
            UpdateLine::DisableAttack(attack) => {
                &&& attack.optional
                &&& exists|j: int| 0 <= j < atts.len() && atts[j] == (attack, State::Alive)
            },
        }
    }

    /// The kinds of update line that the framework leaves room for, in the
    /// order in which they are offered to the random choice.
    pub open spec fn kinds_on_offer(args: Seq<ArgumentWithState>, atts: Seq<AttackWithState>) -> Seq<
        UpdateKind,
    > {
        let a = if args.filter(argument_with(State::Dead, false)).len() > 0 {
            seq![UpdateKind::EnableArgument]
        } else {
            Seq::empty()
        };
        let b = if atts.filter(attack_with(State::Dead, false)).len() > 0 {
            seq![UpdateKind::EnableAttack]
        } else {
            Seq::empty()
        };
        let c = if args.filter(argument_with(State::Alive, true)).len() > 0 {
            seq![UpdateKind::DisableArgument]
        } else {
            Seq::empty()
        };
        let d = if atts.filter(attack_with(State::Alive, true)).len() > 0 {
            seq![UpdateKind::DisableAttack]
        } else {
            Seq::empty()
        };
        a + b + c + d
    }

    /// Keeps the candidates whose coin shows heads.
    pub fn keep_flagged(candidates: &Vec<AttackWithState>, coins: &Vec<bool>) -> (kept: Vec<Attack>)
        requires
            candidates.len() == coins.len(),
        ensures
            kept@ == flagged(candidates@, coins@),
    {
        let mut kept: Vec<Attack> = Vec::new();
        let mut i: usize = 0;
        while i < candidates.len()
            invariant
                i <= candidates.len(),
                candidates.len() == coins.len(),
                kept@ == flagged(candidates@.take(i as int), coins@.take(i as int)),
            decreases candidates.len() - i,
        {
            proof {
                assert(candidates@.take(i + 1).drop_last() == candidates@.take(i as int));
                assert(coins@.take(i + 1).drop_last() == coins@.take(i as int));
            }
            if coins[i] {
                kept.push(candidates[i].0);
            }
            i += 1;
        }
        proof {
            assert(candidates@.take(candidates.len() as int) == candidates@);
            assert(coins@.take(coins.len() as int) == coins@);
        }
        kept
    }

    /// The kinds of update line that the framework leaves room for.
    pub fn kinds(args: &Vec<ArgumentWithState>, atts: &Vec<AttackWithState>) -> (kinds: Vec<UpdateKind>)
        ensures
            kinds@ == UpdateLine::kinds_on_offer(args@, atts@),
    {
        let mut kinds: Vec<UpdateKind> = Vec::new();
        if arguments_with(args, State::Dead, false).len() > 0 {
            kinds.push(UpdateKind::EnableArgument);
        }
        if attacks_with(atts, State::Dead, false).len() > 0 {
            kinds.push(UpdateKind::EnableAttack);
        }
        if arguments_with(args, State::Alive, true).len() > 0 {
            kinds.push(UpdateKind::DisableArgument);
        }
        if attacks_with(atts, State::Alive, true).len() > 0 {
            kinds.push(UpdateKind::DisableAttack);
        }
        kinds
    }

    /// Generate a single new update line.
    ///
    /// There is none exactly if nothing is dead and nothing that is optional
    /// is alive. Whatever the random draws, a line that comes back is a legal
    /// edit of the framework.
    pub fn generate(
        rng: &mut SmallRng,
        args: &Vec<ArgumentWithState>,
        atts: &Vec<AttackWithState>,
        edge_when_adding_arg: &Probability,
    ) -> (line: Option<Self>)
        requires
            edge_when_adding_arg.wf(),
        ensures
            line is None <==> UpdateLine::kinds_on_offer(args@, atts@).len() == 0,
            line matches Some(update) ==> update.applicable(args@, atts@),
    {
        let kinds = UpdateLine::kinds(args, atts);
        if kinds.len() == 0 {
            return None;
        }
        let kind = kinds[pick_index(rng, kinds.len())];
        let dead_args = arguments_with(args, State::Dead, false);
        let dead_atts = attacks_with(atts, State::Dead, false);
        let optional_args = arguments_with(args, State::Alive, true);
        let optional_atts = attacks_with(atts, State::Alive, true);
        match kind {
            UpdateKind::EnableArgument => {
                let k = pick_index(rng, dead_args.len());
                let argument = dead_args[k].0;
                let candidates = attacks_touching(&dead_atts, &argument);
                let mut coins: Vec<bool> = Vec::new();
                while coins.len() < candidates.len()
                    invariant
                        coins.len() <= candidates.len(),
                        edge_when_adding_arg.wf(),
                    decreases candidates.len() - coins.len(),
                {
                    coins.push(flip(rng, edge_when_adding_arg));
                }
                let attacks = UpdateLine::keep_flagged(&candidates, &coins);
                proof {
                    lemma_filter_member(args@, argument_with(State::Dead, false), k as int);
                    let i = choose|i: int| 0 <= i < args@.len() && args@[i] == dead_args@[k as int];
                    assert(args@[i] == (argument, State::Dead));
                    assert forall|n: int| 0 <= n < attacks@.len() implies (#[trigger] attacks@[n]).touches(
                        &argument,
                    ) && exists|j: int| 0 <= j < atts@.len() && atts@[j] == (attacks@[n], State::Dead) by {
                        lemma_flagged_member(candidates@, coins@, n);
                        let c = choose|c: int|
                            0 <= c < candidates@.len() && candidates@[c].0 == attacks@[n];
                        lemma_filter_member(dead_atts@, attack_touching(argument), c);
                        let d = choose|d: int|
                            0 <= d < dead_atts@.len() && dead_atts@[d] == candidates@[c];
                        lemma_filter_member(atts@, attack_with(State::Dead, false), d);
                        let j = choose|j: int| 0 <= j < atts@.len() && atts@[j] == dead_atts@[d];
                        assert(atts@[j] == (attacks@[n], State::Dead));
                    }
                }
                Some(UpdateLine::EnableArgument(argument, attacks))
            },
            UpdateKind::EnableAttack => {
                let k = pick_index(rng, dead_atts.len());
                proof {
                    lemma_filter_member(atts@, attack_with(State::Dead, false), k as int);
                }
                Some(UpdateLine::EnableAttack(dead_atts[k].0))
            },
            UpdateKind::DisableArgument => {
                let k = pick_index(rng, optional_args.len());
                proof {
                    lemma_filter_member(args@, argument_with(State::Alive, true), k as int);
                }
                Some(UpdateLine::DisableArgument(optional_args[k].0))
            },
            UpdateKind::DisableAttack => {
                let k = pick_index(rng, optional_atts.len());
                proof {
                    lemma_filter_member(atts@, attack_with(State::Alive, true), k as int);
                }
                Some(UpdateLine::DisableAttack(optional_atts[k].0))
            },
        }
    }
}

} // verus!
