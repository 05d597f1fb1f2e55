//! The framework that the generator draws and edits.
use rand::rngs::SmallRng;
use vstd::prelude::*;
use vstd::string::StringExecFns;

use crate::argumentation_framework::symbols::State;
use crate::generator::types::{name_of, Argument, ArgumentWithState, Attack, AttackWithState};
use crate::generator::update::{
    apx_argument_string, apx_argument_text, apx_attack_string, apx_attack_text, tgf_attack_string,
    tgf_attack_text, UpdateLine,
};
use crate::generator::{flip, Config, Format};

verus! {

/// The line, or pair of statements, that stands for one argument in a
/// framework file. With `alive_only`, dead arguments give no text and
/// optional ones are not marked.
pub open spec fn argument_line(entry: ArgumentWithState, format: Format, alive_only: bool) -> Seq<
    char,
> {
    if alive_only && entry.1 != State::Alive {
        Seq::empty()
    } else {
        match format {
            Format::Apx => if !alive_only && entry.0.optional {
                apx_argument_text(entry.0) + ". opt("@ + apx_argument_text(entry.0) + ").\n"@
            } else {
                apx_argument_text(entry.0) + ".\n"@
            },
            Format::Tgf => if !alive_only && entry.0.optional {
                name_of(entry.0.id) + "?\n"@
            } else {
                name_of(entry.0.id) + "\n"@
            },
        }
    }
}

/// The line, or pair of statements, that stands for one attack in a
/// framework file.
pub open spec fn attack_line(entry: AttackWithState, format: Format, alive_only: bool) -> Seq<char> {
    if alive_only && entry.1 != State::Alive {
        Seq::empty()
    } else {
        match format {
            Format::Apx => if !alive_only && entry.0.optional {
                apx_attack_text(entry.0) + ". opt("@ + apx_attack_text(entry.0) + ").\n"@
            } else {
                apx_attack_text(entry.0) + ".\n"@
            },
            Format::Tgf => if !alive_only && entry.0.optional {
                tgf_attack_text(entry.0) + "?\n"@
            } else {
                tgf_attack_text(entry.0) + "\n"@
            },
        }
    }
}

/// The lines of all arguments, in order.
pub open spec fn argument_lines(args: Seq<ArgumentWithState>, format: Format, alive_only: bool) -> Seq<
    char,
>
    decreases args.len(),
{
    if args.len() == 0 {
        Seq::empty()
    } else {
        argument_lines(args.drop_last(), format, alive_only) + argument_line(
            args.last(),
            format,
            alive_only,
        )
    }
}

/// The lines of all attacks, in order.
pub open spec fn attack_lines(atts: Seq<AttackWithState>, format: Format, alive_only: bool) -> Seq<
    char,
>
    decreases atts.len(),
{
    if atts.len() == 0 {
        Seq::empty()
    } else {
        attack_lines(atts.drop_last(), format, alive_only) + attack_line(
            atts.last(),
            format,
            alive_only,
        )
    }
}

/// The text of a framework file: the arguments, in the terse format the
/// separator line, then the attacks.
pub open spec fn framework_text(
    args: Seq<ArgumentWithState>,
    atts: Seq<AttackWithState>,
    format: Format,
    alive_only: bool,
) -> Seq<char> {
    argument_lines(args, format, alive_only) + match format {
        Format::Apx => Seq::empty(),
        Format::Tgf => "#\n"@,
    } + attack_lines(atts, format, alive_only)
}

fn append_argument_line(text: &mut String, entry: &ArgumentWithState, format: Format, alive_only: bool)
    ensures
        final(text)@ == old(text)@ + argument_line(*entry, format, alive_only),
{
    if alive_only && entry.1 != State::Alive {
        return ;
    }
    let marked = !alive_only && entry.0.optional;
    match format {
        Format::Apx => {
            let statement = apx_argument_string(&entry.0);
            text.append(statement.as_str());
            if marked {
                text.append(". opt(");
                text.append(statement.as_str());
                text.append(").\n");
            } else {
                text.append(".\n");
            }
        },
        Format::Tgf => {
            text.append(entry.0.name().as_str());
            if marked {
                text.append("?\n");
            } else {
                text.append("\n");
            }
        },
    }
}

fn append_attack_line(text: &mut String, entry: &AttackWithState, format: Format, alive_only: bool)
    ensures
        final(text)@ == old(text)@ + attack_line(*entry, format, alive_only),
{
    if alive_only && entry.1 != State::Alive {
        return ;
    }
    let marked = !alive_only && entry.0.optional;
    match format {
        Format::Apx => {
            let statement = apx_attack_string(&entry.0);
            text.append(statement.as_str());
            if marked {
                text.append(". opt(");
                text.append(statement.as_str());
                text.append(").\n");
            } else {
                text.append(".\n");
            }
        },
        Format::Tgf => {
            text.append(tgf_attack_string(&entry.0).as_str());
            if marked {
                text.append("?\n");
            } else {
                text.append("\n");
            }
        },
    }
}

/// Whether `attack` is one of `attacks`, going by its two ends.
pub open spec fn listed(attacks: Seq<Attack>, attack: Attack) -> bool {
    exists|k: int|
        0 <= k < attacks.len() && (#[trigger] attacks[k]).from == attack.from && attacks[k].to
            == attack.to
}

/// Whether `i` is the place of the first argument with number `id`.
pub open spec fn first_argument(args: Seq<ArgumentWithState>, id: usize, i: int) -> bool {
    &&& 0 <= i < args.len()
    &&& args[i].0.id == id
    &&& forall|j: int| 0 <= j < i ==> (#[trigger] args[j]).0.id != id
}

/// Whether `i` is the place of the first attack from `from` to `to`.
pub open spec fn first_attack(atts: Seq<AttackWithState>, from: usize, to: usize, i: int) -> bool {
    &&& 0 <= i < atts.len()
    &&& atts[i].0.from == from && atts[i].0.to == to
    &&& forall|j: int| 0 <= j < i ==> !((#[trigger] atts[j]).0.from == from && atts[j].0.to == to)
}

/// The arguments with the first one numbered `id` set to `state`.
pub open spec fn with_argument_state(args: Seq<ArgumentWithState>, id: usize, state: State) -> Seq<
    ArgumentWithState,
> {
    let i = choose|i: int| first_argument(args, id, i);
    args.update(i, (args[i].0, state))
}

/// The attacks with the first one from `from` to `to` set to `state`.
pub open spec fn with_attack_state(
    atts: Seq<AttackWithState>,
    from: usize,
    to: usize,
    state: State,
) -> Seq<AttackWithState> {
    let i = choose|i: int| first_attack(atts, from, to, i);
    atts.update(i, (atts[i].0, state))
}

/// The attacks with every one that is listed in `attacks` set alive.
pub open spec fn with_listed_alive(atts: Seq<AttackWithState>, attacks: Seq<Attack>) -> Seq<
    AttackWithState,
> {
    Seq::new(
        atts.len(),
        |j: int|
            if listed(attacks, atts[j].0) {
                (atts[j].0, State::Alive)
            } else {
                atts[j]
            },
    )
}

/// Whether the elements that `update` names stand among the arguments and
/// attacks.
pub open spec fn known(
    args: Seq<ArgumentWithState>,
    atts: Seq<AttackWithState>,
    update: UpdateLine,
) -> bool {
    match update {
        UpdateLine::EnableArgument(argument, _) | UpdateLine::DisableArgument(argument) => exists|
            i: int,
        | 0 <= i < args.len() && (#[trigger] args[i]).0.id == argument.id,
        UpdateLine::EnableAttack(attack) | UpdateLine::DisableAttack(attack) => exists|i: int|
            0 <= i < atts.len() && (#[trigger] atts[i]).0.from == attack.from && atts[i].0.to
                == attack.to,
    }
}

/// The arguments as `update` leaves them.
pub open spec fn arguments_after(args: Seq<ArgumentWithState>, update: UpdateLine) -> Seq<
    ArgumentWithState,
> {
    match update {
        UpdateLine::EnableArgument(argument, _) => with_argument_state(
            args,
            argument.id,
            State::Alive,
        ),
        UpdateLine::DisableArgument(argument) => with_argument_state(
            args,
            argument.id,
            State::Dead,
        ),
        _ => args,
    }
}

/// The attacks as `update` leaves them.
pub open spec fn attacks_after(atts: Seq<AttackWithState>, update: UpdateLine) -> Seq<
    AttackWithState,
> {
    match update {
        UpdateLine::EnableArgument(_, attacks) => with_listed_alive(atts, attacks@),
        UpdateLine::DisableArgument(_) => atts,
        UpdateLine::EnableAttack(attack) => with_attack_state(
            atts,
            attack.from,
            attack.to,
            State::Alive,
        ),
        UpdateLine::DisableAttack(attack) => with_attack_state(
            atts,
            attack.from,
            attack.to,
            State::Dead,
        ),
    }
}

/// The arguments and attacks as a sequence of update lines leaves them,
/// applied one after the other.
pub open spec fn replayed(
    args: Seq<ArgumentWithState>,
    atts: Seq<AttackWithState>,
    updates: Seq<UpdateLine>,
) -> (Seq<ArgumentWithState>, Seq<AttackWithState>)
    decreases updates.len(),
{
    if updates.len() == 0 {
        (args, atts)
    } else {
        let before = replayed(args, atts, updates.drop_last());
        (arguments_after(before.0, updates.last()), attacks_after(before.1, updates.last()))
    }
}

/// Whether each of the update lines is a legal edit of the framework as
/// the lines before it leave it.
pub open spec fn legal(
    args: Seq<ArgumentWithState>,
    atts: Seq<AttackWithState>,
    updates: Seq<UpdateLine>,
) -> bool
    decreases updates.len(),
{
    if updates.len() == 0 {
        true
    } else {
        let before = replayed(args, atts, updates.drop_last());
        legal(args, atts, updates.drop_last()) && updates.last().applicable(before.0, before.1)
    }
}

/// Argumentation framework: arguments and attacks, each with its status.
#[derive(Debug, Clone)]
pub struct AF {
    /// Arguments
    pub args: Vec<ArgumentWithState>,
    /// Attacks
    pub atts: Vec<AttackWithState>,
}

fn is_listed(attacks: &Vec<Attack>, attack: &Attack) -> (found: bool)
    ensures
        found == listed(attacks@, *attack),
{
    let mut i: usize = 0;
    while i < attacks.len()
        invariant
            i <= attacks.len(),
            forall|k: int|
                0 <= k < i ==> !((#[trigger] attacks@[k]).from == attack.from && attacks@[k].to
                    == attack.to),
        decreases attacks.len() - i,
    {
        if attacks[i] == *attack {
            return true;
        }
        i += 1;
    }
    false
}

impl AF {
    /// Whether the elements that `update` names stand in the framework.
    pub open spec fn knows(&self, update: &UpdateLine) -> bool {
        known(self.args@, self.atts@, *update)
    }

    /// The arguments as `update` leaves them.
    pub open spec fn args_after(&self, update: &UpdateLine) -> Seq<ArgumentWithState> {
        arguments_after(self.args@, *update)
    }

    /// The attacks as `update` leaves them.
    pub open spec fn atts_after(&self, update: &UpdateLine) -> Seq<AttackWithState> {
        attacks_after(self.atts@, *update)
    }

    fn set_argument(&mut self, argument: &Argument, state: State)
        requires
            exists|i: int|
                0 <= i < old(self).args@.len() && (#[trigger] old(self).args@[i]).0.id == argument.id,
        ensures
            final(self).args@ == with_argument_state(old(self).args@, argument.id, state),
            final(self).atts@ == old(self).atts@,
    {
        let mut i: usize = 0;
        while i < self.args.len()
            invariant
                i <= self.args.len(),
                self.args@ == old(self).args@,
                self.atts@ == old(self).atts@,
                exists|k: int|
                    0 <= k < self.args@.len() && (#[trigger] self.args@[k]).0.id == argument.id,
                forall|j: int| 0 <= j < i ==> (#[trigger] self.args@[j]).0.id != argument.id,
            decreases self.args.len() - i,
        {
            if self.args[i].0 == *argument {
                proof {
                    let chosen = choose|k: int| first_argument(self.args@, argument.id, k);
                    assert(first_argument(self.args@, argument.id, i as int));
                    assert(chosen == i);
                }
                let entry = self.args[i];
                self.args.set(i, (entry.0, state));
                return ;
            }
            i += 1;
        }
    }

    fn set_attack(&mut self, attack: &Attack, state: State)
        requires
            exists|i: int|
                0 <= i < old(self).atts@.len() && (#[trigger] old(self).atts@[i]).0.from
                    == attack.from && old(self).atts@[i].0.to == attack.to,
        ensures
            final(self).atts@ == with_attack_state(old(self).atts@, attack.from, attack.to, state),
            final(self).args@ == old(self).args@,
    {
        let mut i: usize = 0;
        while i < self.atts.len()
            invariant
                i <= self.atts.len(),
                self.args@ == old(self).args@,
                self.atts@ == old(self).atts@,
                exists|k: int|
                    0 <= k < self.atts@.len() && (#[trigger] self.atts@[k]).0.from == attack.from
                        && self.atts@[k].0.to == attack.to,
                forall|j: int|
                    0 <= j < i ==> !((#[trigger] self.atts@[j]).0.from == attack.from
                        && self.atts@[j].0.to == attack.to),
            decreases self.atts.len() - i,
        {
            if self.atts[i].0 == *attack {
                proof {
                    let chosen = choose|k: int| first_attack(self.atts@, attack.from, attack.to, k);
                    assert(first_attack(self.atts@, attack.from, attack.to, i as int));
                    assert(chosen == i);
                }
                let entry = self.atts[i];
                self.atts.set(i, (entry.0, state));
                return ;
            }
            i += 1;
        }
    }

    fn enable_listed(&mut self, attacks: &Vec<Attack>)
        ensures
            final(self).atts@ == with_listed_alive(old(self).atts@, attacks@),
            final(self).args@ == old(self).args@,
    {
        let mut i: usize = 0;
        while i < self.atts.len()
            invariant
                i <= self.atts.len(),
                self.args@ == old(self).args@,
                self.atts@.len() == old(self).atts@.len(),
                forall|j: int|
                    0 <= j < i ==> self.atts@[j] == with_listed_alive(old(self).atts@, attacks@)[j],
                forall|j: int| i <= j < self.atts@.len() ==> self.atts@[j] == old(self).atts@[j],
            decreases self.atts.len() - i,
        {
            let entry = self.atts[i];
            if is_listed(attacks, &entry.0) {
                self.atts.set(i, (entry.0, State::Alive));
            }
            i += 1;
        }
        proof {
            assert(self.atts@ =~= with_listed_alive(old(self).atts@, attacks@));
        }
    }

    /// Apply a single update line: the named element, the first of its
    /// name, changes its status; an enabled argument also sets alive every
    /// attack that its line lists.
    pub fn apply_update(&mut self, update: &UpdateLine)
        requires
            old(self).knows(update),
        ensures
            final(self).args@ == old(self).args_after(update),
            final(self).atts@ == old(self).atts_after(update),
    {
        match update {
            UpdateLine::EnableArgument(argument, attacks) => {
                self.set_argument(argument, State::Alive);
                self.enable_listed(attacks);
            },
            UpdateLine::DisableArgument(argument) => {
                self.set_argument(argument, State::Dead);
            },
            UpdateLine::EnableAttack(attack) => {
                self.set_attack(attack, State::Alive);
            },
            UpdateLine::DisableAttack(attack) => {
                self.set_attack(attack, State::Dead);
            },
        }
    }

    /// The text of the framework file. With `alive_only` the text holds what
    /// is alive and marks nothing as optional; without it the text holds
    /// every element and marks the optional ones.
    pub fn format_framework(&self, format: Format, alive_only: bool) -> (text: String)
        ensures
            text@ == framework_text(self.args@, self.atts@, format, alive_only),
    {
        let mut text = String::new();
        let mut i: usize = 0;
        while i < self.args.len()
            invariant
                i <= self.args.len(),
                text@ == argument_lines(self.args@.take(i as int), format, alive_only),
            decreases self.args.len() - i,
        {
            proof {
                assert(self.args@.take(i + 1).drop_last() == self.args@.take(i as int));
            }
            append_argument_line(&mut text, &self.args[i], format, alive_only);
            i += 1;
        }
        proof {
            assert(self.args@.take(self.args.len() as int) == self.args@);
        }
        match format {
            Format::Apx => {},
            Format::Tgf => text.append("#\n"),
        }
        let ghost head = text@;
        let mut j: usize = 0;
        while j < self.atts.len()
            invariant
                j <= self.atts.len(),
                text@ == head + attack_lines(self.atts@.take(j as int), format, alive_only),
            decreases self.atts.len() - j,
        {
            proof {
                assert(self.atts@.take(j + 1).drop_last() == self.atts@.take(j as int));
            }
            append_attack_line(&mut text, &self.atts[j], format, alive_only);
            j += 1;
        }
        proof {
            assert(self.atts@.take(self.atts.len() as int) == self.atts@);
        }
        text
    }
}

/// Whether the pair `(a, b)` comes before the pair `(c, d)`.
pub open spec fn pair_before(a: usize, b: usize, c: usize, d: usize) -> bool {
    a < c || (a == c && b < d)
}

impl AF {
    /// What holds of every freshly generated framework of `arg_count`
    /// arguments: the arguments are numbered from zero in order, the attacks
    /// run between them and come in the order of their pairs, so that no pair
    /// occurs twice, and every element starts dead if and only if it is
    /// optional.
    pub open spec fn fresh(&self, arg_count: usize) -> bool {
        &&& self.args@.len() == arg_count
        &&& forall|i: int|
            0 <= i < self.args@.len() ==> (#[trigger] self.args@[i]).0.id == i && self.args@[i].1
                == State::initial(self.args@[i].0.optional)
        &&& forall|j: int|
            0 <= j < self.atts@.len() ==> (#[trigger] self.atts@[j]).0.from < arg_count
                && self.atts@[j].0.to < arg_count && self.atts@[j].1 == State::initial(
                self.atts@[j].0.optional,
            )
        &&& forall|j: int, k: int|
            0 <= j < k < self.atts@.len() ==> pair_before(
                (#[trigger] self.atts@[j]).0.from,
                self.atts@[j].0.to,
                (#[trigger] self.atts@[k]).0.from,
                self.atts@[k].0.to,
            )
    }

    /// Generate a new argumentation framework.
    pub fn generate(rng: &mut SmallRng, config: &Config) -> (af: Self)
        requires
            config.wf(),
        ensures
            af.fresh(config.arg_count),
    {
        let count = config.arg_count;
        let mut args: Vec<ArgumentWithState> = Vec::new();
        let mut id: usize = 0;
        while id < count
            invariant
                id <= count,
                config.wf(),
                args@.len() == id,
                forall|i: int|
                    0 <= i < args@.len() ==> (#[trigger] args@[i]).0.id == i && args@[i].1
                        == State::initial(args@[i].0.optional),
            decreases count - id,
        {
            let optional = flip(rng, &config.arg_optional);
            args.push((Argument::new(id, optional), State::at_start(optional)));
            id += 1;
        }
        let mut atts: Vec<AttackWithState> = Vec::new();
        let mut from: usize = 0;
        while from < count
            invariant
                from <= count,
                config.wf(),
                forall|j: int|
                    0 <= j < atts@.len() ==> (#[trigger] atts@[j]).0.from < from && atts@[j].0.to
                        < count && atts@[j].1 == State::initial(atts@[j].0.optional),
                forall|j: int, k: int|
                    0 <= j < k < atts@.len() ==> pair_before(
                        (#[trigger] atts@[j]).0.from,
                        atts@[j].0.to,
                        (#[trigger] atts@[k]).0.from,
                        atts@[k].0.to,
                    ),
            decreases count - from,
        {
            let mut to: usize = 0;
            while to < count
                invariant
                    from < count,
                    to <= count,
                    config.wf(),
                    forall|j: int|
                        0 <= j < atts@.len() ==> pair_before(
                            (#[trigger] atts@[j]).0.from,
                            atts@[j].0.to,
                            from,
                            to,
                        ) && atts@[j].0.to < count && atts@[j].1 == State::initial(
                            atts@[j].0.optional,
                        ),
                    forall|j: int, k: int|
                        0 <= j < k < atts@.len() ==> pair_before(
                            (#[trigger] atts@[j]).0.from,
                            atts@[j].0.to,
                            (#[trigger] atts@[k]).0.from,
                            atts@[k].0.to,
                        ),
                decreases count - to,
            {
                if flip(rng, &config.edge) {
                    let optional = flip(rng, &config.attack_optional);
                    atts.push((Attack::from_raw(from, to, optional), State::at_start(optional)));
                }
                to += 1;
            }
            from += 1;
        }
        AF { args, atts }
    }

    /// Generate and apply `config.nr_of_updates` update lines, as far as the
    /// framework leaves room for any. Returns the lines and, if the
    /// configuration asks for them, the alive-only text of the framework
    /// before the first line and after each one.
    ///
    /// Whatever the random draws, each line was a legal edit of the
    /// framework as the lines before it had left it, and the framework is
    /// left as the lines make it.
    pub fn generate_apply_updates(&mut self, rng: &mut SmallRng, config: &Config) -> (out: (
        Vec<UpdateLine>,
        Vec<String>,
    ))
        requires
            config.wf(),
        ensures
            out.0@.len() <= config.nr_of_updates,
            legal(old(self).args@, old(self).atts@, out.0@),
            (final(self).args@, final(self).atts@) == replayed(
                old(self).args@,
                old(self).atts@,
                out.0@,
            ),
            config.output_intermediates ==> out.1@.len() == out.0@.len() + 1 && forall|n: int|
                0 <= n <= out.0@.len() ==> (#[trigger] out.1@[n])@ == framework_text(
                    replayed(old(self).args@, old(self).atts@, out.0@.take(n)).0,
                    replayed(old(self).args@, old(self).atts@, out.0@.take(n)).1,
                    config.format,
                    true,
                ),
            !config.output_intermediates ==> out.1@.len() == 0,
    {
        let mut updates: Vec<UpdateLine> = Vec::new();
        let mut intermediates: Vec<String> = Vec::new();
        if config.output_intermediates {
            intermediates.push(self.format_framework(config.format, true));
        }
        let mut update_nr: usize = 0;
        proof {
            assert(updates@.take(0) =~= updates@);
        }
        while update_nr < config.nr_of_updates
            invariant
                update_nr <= config.nr_of_updates,
                config.wf(),
                updates@.len() <= update_nr,
                legal(old(self).args@, old(self).atts@, updates@),
                (self.args@, self.atts@) == replayed(old(self).args@, old(self).atts@, updates@),
                config.output_intermediates ==> intermediates@.len() == updates@.len() + 1
                    && forall|n: int|
                    0 <= n <= updates@.len() ==> (#[trigger] intermediates@[n])@ == framework_text(
                        replayed(old(self).args@, old(self).atts@, updates@.take(n)).0,
                        replayed(old(self).args@, old(self).atts@, updates@.take(n)).1,
                        config.format,
                        true,
                    ),
                !config.output_intermediates ==> intermediates@.len() == 0,
            decreases config.nr_of_updates - update_nr,
        {
            match UpdateLine::generate(rng, &self.args, &self.atts, &config.edge_when_adding_arg) {
                Some(update) => {
                    let ghost before = updates@;
                    proof {
                        lemma_applicable_known(*self, update);
                    }
                    self.apply_update(&update);
                    if config.output_intermediates {
                        intermediates.push(self.format_framework(config.format, true));
                    }
                    updates.push(update);
                    proof {
                        let after = updates@;
                        assert(after.drop_last() == before);
                        assert(after.take(after.len() as int) == after);
                        assert forall|n: int| 0 <= n < after.len() implies after.take(n)
                            == before.take(n) by {
                            assert(after.take(n) =~= before.take(n));
                        }
                    }
                },
                None => {},
            }
            update_nr += 1;
        }
        (updates, intermediates)
    }
}

/// A legal edit names elements of the framework.
pub proof fn lemma_applicable_known(af: AF, update: UpdateLine)
    requires
        update.applicable(af.args@, af.atts@),
    ensures
        af.knows(&update),
{
    match update {
        UpdateLine::EnableArgument(argument, _) => {
            let i = choose|i: int| 0 <= i < af.args@.len() && af.args@[i] == (argument, State::Dead);
            assert(af.args@[i].0.id == argument.id);
        },
        UpdateLine::DisableArgument(argument) => {
            let i = choose|i: int|
                0 <= i < af.args@.len() && af.args@[i] == (argument, State::Alive);
            assert(af.args@[i].0.id == argument.id);
        },
        UpdateLine::EnableAttack(attack) => {
            let i = choose|i: int| 0 <= i < af.atts@.len() && af.atts@[i] == (attack, State::Dead);
            assert(af.atts@[i].0.from == attack.from);
        },
        UpdateLine::DisableAttack(attack) => {
            let i = choose|i: int| 0 <= i < af.atts@.len() && af.atts@[i] == (attack, State::Alive);
            assert(af.atts@[i].0.from == attack.from);
        },
    }
}

/// An update line changes the status of elements and nothing else: no
/// element comes or goes, and every element keeps its number and its
/// optional mark.
pub proof fn lemma_update_keeps_lengths(af: AF, update: UpdateLine)
    requires
        af.knows(&update),
    ensures
        af.args_after(&update).len() == af.args@.len(),
        af.atts_after(&update).len() == af.atts@.len(),
        forall|i: int| 0 <= i < af.args@.len() ==> af.args_after(&update)[i].0 == af.args@[i].0,
        forall|i: int| 0 <= i < af.atts@.len() ==> af.atts_after(&update)[i].0 == af.atts@[i].0,
{
    match update {
        UpdateLine::EnableArgument(argument, _) | UpdateLine::DisableArgument(argument) => {
            lemma_first_argument_exists(af.args@, argument.id);
        },
        UpdateLine::EnableAttack(attack) | UpdateLine::DisableAttack(attack) => {
            lemma_first_attack_exists(af.atts@, attack.from, attack.to);
        },
    }
}

/// Where an argument with number `id` exists, there is a first one.
pub proof fn lemma_first_argument_exists(args: Seq<ArgumentWithState>, id: usize)
    requires
        exists|i: int| 0 <= i < args.len() && (#[trigger] args[i]).0.id == id,
    ensures
        exists|i: int| first_argument(args, id, i),
    decreases args.len(),
{
    if args[0].0.id == id {
        assert(first_argument(args, id, 0));
    } else {
        let rest = args.drop_first();
        let w = choose|i: int| 0 <= i < args.len() && (#[trigger] args[i]).0.id == id;
        assert(rest[w - 1].0.id == id);
        lemma_first_argument_exists(rest, id);
        let f = choose|i: int| first_argument(rest, id, i);
        assert forall|j: int| 0 <= j < f + 1 implies (#[trigger] args[j]).0.id != id by {
            if j > 0 {
                assert(rest[j - 1].0.id != id);
            }
        }
        assert(first_argument(args, id, f + 1));
    }
}

/// Where an attack from `from` to `to` exists, there is a first one.
pub proof fn lemma_first_attack_exists(atts: Seq<AttackWithState>, from: usize, to: usize)
    requires
        exists|i: int|
            0 <= i < atts.len() && (#[trigger] atts[i]).0.from == from && atts[i].0.to == to,
    ensures
        exists|i: int| first_attack(atts, from, to, i),
    decreases atts.len(),
{
    if atts[0].0.from == from && atts[0].0.to == to {
        assert(first_attack(atts, from, to, 0));
    } else {
        let rest = atts.drop_first();
        let w = choose|i: int|
            0 <= i < atts.len() && (#[trigger] atts[i]).0.from == from && atts[i].0.to == to;
        assert(rest[w - 1].0.from == from && rest[w - 1].0.to == to);
        lemma_first_attack_exists(rest, from, to);
        let f = choose|i: int| first_attack(rest, from, to, i);
        assert forall|j: int| 0 <= j < f + 1 implies !((#[trigger] atts[j]).0.from == from
            && atts[j].0.to == to) by {
            if j > 0 {
                assert(!(rest[j - 1].0.from == from && rest[j - 1].0.to == to));
            }
        }
        assert(first_attack(atts, from, to, f + 1));
    }
}

} // verus!
