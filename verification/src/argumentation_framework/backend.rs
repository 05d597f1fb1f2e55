//! What the solver is told.
//!
//! The library does not talk to the solver itself. It says what has to be
//! done, as a sequence of commands; whoever holds the solver performs them
//! in order.
use vstd::prelude::*;
use vstd::string::StringExecFns;

use crate::argumentation_framework::semantics::ArgumentationFrameworkSemantic;
use crate::argumentation_framework::symbols::{
    argument_views, attack_views, Argument, ArgumentView, Attack, AttackView, Target, TargetView,
};
use crate::error::{Error, ErrorView};

verus! {

/// The name of the program that holds the arguments and attacks.
pub const FACTS: &'static str = "facts";

/// The name of the program that holds the acceptance criterion.
pub const BASE: &'static str = "base";

/// The name of the program that says what a model shows.
pub const SHOW: &'static str = "show";

/// The program that makes a model show the accepted arguments, and nothing
/// else.
pub const SHOW_PROGRAM: &'static str = "
            #show.
            #show X: in(X).
        ";

/// One step that the solver has to perform.
#[derive(Debug, Clone, PartialEq, Eq)]
pub enum Command {
    /// Add the program `program` under the name `name`.
    Add { name: String, program: String },
    /// Ground the named programs, in this order.
    Ground { parts: Vec<String> },
    /// Give the atom of an optional element the truth value `truth`.
    AssignExternal { target: Target, truth: bool },
}

/// A [`Command`] as a plain value.
pub enum CommandView {
    Add { name: Seq<char>, program: Seq<char> },
    Ground { parts: Seq<Seq<char>> },
    AssignExternal { target: TargetView, truth: bool },
}

impl View for Command {
    type V = CommandView;

    open spec fn view(&self) -> CommandView {
        match self {
            Command::Add { name, program } => CommandView::Add { name: name@, program: program@ },
            Command::Ground { parts } => CommandView::Ground {
                parts: Seq::new(parts@.len(), |i: int| parts@[i]@),
            },
            Command::AssignExternal { target, truth } => CommandView::AssignExternal {
                target: target@,
                truth: *truth,
            },
        }
    }
}

/// The commands as plain values.
pub open spec fn command_views(commands: Seq<Command>) -> Seq<CommandView> {
    Seq::new(commands.len(), |i: int| commands[i]@)
}

/// The fact that declares an argument. An optional argument is declared as
/// an atom that the solver is told the truth of later on.
pub open spec fn argument_fact(argument: ArgumentView) -> Seq<char> {
    if argument.optional {
        "#external argument("@ + argument.id + "). "@
    } else {
        "argument("@ + argument.id + "). "@
    }
}

/// The fact that declares an attack.
pub open spec fn attack_fact(attack: AttackView) -> Seq<char> {
    if attack.optional {
        "#external attack("@ + attack.from + ", "@ + attack.to + "). "@
    } else {
        "attack("@ + attack.from + ", "@ + attack.to + "). "@
    }
}

/// The facts of all arguments, in order.
pub open spec fn argument_facts(args: Seq<ArgumentView>) -> Seq<char>
    decreases args.len(),
{
    if args.len() == 0 {
        Seq::empty()
    } else {
        argument_facts(args.drop_last()) + argument_fact(args.last())
    }
}

/// The facts of all attacks, in order.
pub open spec fn attack_facts(attacks: Seq<AttackView>) -> Seq<char>
    decreases attacks.len(),
{
    if attacks.len() == 0 {
        Seq::empty()
    } else {
        attack_facts(attacks.drop_last()) + attack_fact(attacks.last())
    }
}

/// The program that declares the framework: its arguments, then its
/// attacks.
pub open spec fn facts_program(args: Seq<ArgumentView>, attacks: Seq<AttackView>) -> Seq<char> {
    argument_facts(args) + attack_facts(attacks)
}

/// The commands that set the solver up for a framework under the criterion
/// whose base program is `base`: the three programs are added, then
/// grounded.
pub open spec fn setup(args: Seq<ArgumentView>, attacks: Seq<AttackView>, base: Seq<char>) -> Seq<
    CommandView,
> {
    seq![
        CommandView::Add { name: FACTS@, program: facts_program(args, attacks) },
        CommandView::Add { name: BASE@, program: base },
        CommandView::Add { name: SHOW@, program: SHOW_PROGRAM@ },
        CommandView::Ground { parts: seq![BASE@, SHOW@, FACTS@] },
    ]
}

/// The command that switches `target` to `truth`.
pub open spec fn assignment(target: TargetView, truth: bool) -> CommandView {
    CommandView::AssignExternal { target, truth }
}

/// The text of the program that declares the framework.
pub fn facts(args: &Vec<Argument>, attacks: &Vec<Attack>) -> (program: String)
    ensures
        program@ == facts_program(argument_views(args@), attack_views(attacks@)),
{
    let mut program = String::new();
    let mut i: usize = 0;
    while i < args.len()
        invariant
            i <= args.len(),
            program@ == argument_facts(argument_views(args@).take(i as int)),
        decreases args.len() - i,
    {
        proof {
            assert(argument_views(args@).take(i + 1).drop_last() == argument_views(args@).take(
                i as int,
            ));
        }
        if args[i].optional {
            program.append("#external argument(");
        } else {
            program.append("argument(");
        }
        program.append(args[i].id.as_str());
        program.append("). ");
        i += 1;
    }
    proof {
        assert(argument_views(args@).take(args.len() as int) == argument_views(args@));
    }
    let ghost head = program@;
    let mut j: usize = 0;
    while j < attacks.len()
        invariant
            j <= attacks.len(),
            program@ == head + attack_facts(attack_views(attacks@).take(j as int)),
        decreases attacks.len() - j,
    {
        proof {
            assert(attack_views(attacks@).take(j + 1).drop_last() == attack_views(attacks@).take(
                j as int,
            ));
        }
        if attacks[j].optional {
            program.append("#external attack(");
        } else {
            program.append("attack(");
        }
        program.append(attacks[j].from.as_str());
        program.append(", ");
        program.append(attacks[j].to.as_str());
        program.append("). ");
        j += 1;
    }
    proof {
        assert(attack_views(attacks@).take(attacks.len() as int) == attack_views(attacks@));
    }
    program
}

/// The command that grounds the three programs: base, show and facts.
pub fn ground() -> (command: Command)
    ensures
        command@ == (CommandView::Ground { parts: seq![BASE@, SHOW@, FACTS@] }),
{
    let parts = vec![String::from_str(BASE), String::from_str(SHOW), String::from_str(FACTS)];
    let command = Command::Ground { parts };
    proof {
        assert(command@->parts =~= seq![BASE@, SHOW@, FACTS@]);
    }
    command
}

/// The commands that set the solver up for the given arguments and attacks
/// under the criterion `S`.
pub fn initialize_backend<S: ArgumentationFrameworkSemantic>(
    args: &Vec<Argument>,
    attacks: &Vec<Attack>,
) -> (commands: Vec<Command>)
    ensures
        command_views(commands@) == setup(
            argument_views(args@),
            attack_views(attacks@),
            S::program(),
        ),
{
    let commands = vec![
        Command::Add { name: String::from_str(FACTS), program: facts(args, attacks) },
        Command::Add { name: String::from_str(BASE), program: String::from_str(S::base()) },
        Command::Add { name: String::from_str(SHOW), program: String::from_str(SHOW_PROGRAM) },
        ground(),
    ];
    proof {
        assert(command_views(commands@) =~= setup(
            argument_views(args@),
            attack_views(attacks@),
            S::program(),
        ));
    }
    commands
}

/// The parameters that the solver is started with: all warnings, twelve
/// threads, and no bound on the number of models.
pub fn assemble_clingo_parameters() -> (parameters: Vec<String>)
    ensures
        parameters@.len() == 4,
        parameters@[0]@ == "--warn=all"@,
        parameters@[1]@ == "--parallel-mode"@,
        parameters@[2]@ == "12"@,
        parameters@[3]@ == "0"@,
{
    vec![
        String::from_str("--warn=all"),
        String::from_str("--parallel-mode"),
        String::from_str("12"),
        String::from_str("0"),
    ]
}

/// The command that switches an argument on.
pub fn enable_argument(argument: &Argument) -> (command: Command)
    ensures
        command@ == assignment(TargetView::Argument { id: argument.id@ }, true),
{
    Command::AssignExternal { target: argument.target(), truth: true }
}

/// The command that switches an argument off.
pub fn disable_argument(argument: &Argument) -> (command: Command)
    ensures
        command@ == assignment(TargetView::Argument { id: argument.id@ }, false),
{
    Command::AssignExternal { target: argument.target(), truth: false }
}

/// The command that switches an attack on.
pub fn enable_attack(attack: &Attack) -> (command: Command)
    ensures
        command@ == assignment(TargetView::Attack { from: attack.from@, to: attack.to@ }, true),
{
    Command::AssignExternal { target: attack.target(), truth: true }
}

/// The command that switches an attack off.
pub fn disable_attack(attack: &Attack) -> (command: Command)
    ensures
        command@ == assignment(TargetView::Attack { from: attack.from@, to: attack.to@ }, false),
{
    Command::AssignExternal { target: attack.target(), truth: false }
}


/// What the solver answers to a command.
#[derive(Debug, Clone, PartialEq, Eq)]
pub enum Reply {
    /// The command is performed.
    Done,
    /// The solver does not know the symbol that the command is about.
    UnknownSymbol,
    /// The solver failed.
    Fault(String),
}

/// The message of the fault that a solver commits when it misses a symbol
/// where the command names none.
pub const STRAY_SYMBOL: &'static str = "the solver misses a symbol that the command does not name";

/// What the answer of the solver means for the command: a command that is
/// performed is in order; a symbol that the solver does not know, though
/// the framework holds its element, is an inconsistency between the two and
/// is never passed over; every other failure is a fault of the solver.
pub open spec fn verdict(command: CommandView, reply: Reply) -> Result<(), ErrorView> {
    match reply {
        Reply::Done => Ok(()),
        Reply::UnknownSymbol => match command {
            CommandView::AssignExternal { target, truth } => Err(ErrorView::SymbolNotFound(target)),
            _ => Err(ErrorView::EngineFault(STRAY_SYMBOL@)),
        },
        Reply::Fault(message) => Err(ErrorView::EngineFault(message@)),
    }
}

/// Takes the answer of the solver to a command.
pub fn acknowledge(command: &Command, reply: Reply) -> (outcome: Result<(), Error>)
    ensures
        match outcome {
            Ok(()) => verdict(command@, reply) == Ok::<(), ErrorView>(()),
            Err(error) => verdict(command@, reply) == Err::<(), _>(error@),
        },
{
    match reply {
        Reply::Done => Ok(()),
        Reply::UnknownSymbol => match command {
            Command::AssignExternal { target, truth: _ } => Err(
                Error::SymbolNotFound(target.clone_target()),
            ),
            _ => Err(Error::EngineFault(String::from_str(STRAY_SYMBOL))),
        },
        Reply::Fault(message) => Err(Error::EngineFault(message)),
    }
}

} // verus!
