//! The enumeration of extensions, one model of the solver at a time.
use vstd::prelude::*;

use crate::argumentation_framework::backend::{command_views, Command, CommandView};
use crate::argumentation_framework::extension::{name_set, shown_names, Extension, Model};
use crate::error::{Error, ErrorView};

verus! {

/// The solver while no enumeration holds it. There is one per framework; it
/// is either checked in with the framework or checked out by the one
/// enumeration that is under way.
#[derive(Debug)]
pub struct Control {
    /// The number of enumerations that have held the solver.
    enumerations: usize,
}

impl Control {
    /// The number of enumerations that have held the solver.
    pub closed spec fn held(&self) -> nat {
        self.enumerations as nat
    }

    /// The solver of a framework that was just built: no enumeration has
    /// held it yet.
    pub(crate) fn new() -> (control: Self)
        ensures
            control.held() == 0,
    {
        Control { enumerations: 0 }
    }
}

/// Hands out numbers, each once: 0, 1, 2 and so on.
#[derive(Debug)]
pub struct Counter(pub usize);

impl Counter {
    pub fn new() -> (counter: Self)
        ensures
            counter.0 == 0,
    {
        Counter(0)
    }

    /// The next number. After the largest number the counter starts again
    /// at zero.
    pub fn next(&mut self) -> (number: usize)
        ensures
            number == old(self).0,
            final(self).0 == if old(self).0 == usize::MAX {
                0
            } else {
                (old(self).0 + 1) as usize
            },
    {
        let number = self.0;
        self.0 = if number == usize::MAX {
            0
        } else {
            number + 1
        };
        number
    }
}

/// The solver while an enumeration holds it, together with the commands
/// that it has to perform before it searches.
#[derive(Debug)]
pub struct SolveHandle {
    control: Control,
    commands: Vec<Command>,
}

/// Where an enumeration stands.
#[derive(Debug, Clone, Copy, PartialEq, Eq, Structural)]
pub enum IterState {
    /// No search is under way.
    Idle,
    /// The search is under way: the solver can be asked for the next model.
    Producing,
    /// The search has come to its end.
    Exhausted,
    /// The solver failed.
    Closed,
}

/// What the solver answers when it is asked to go on with its search.
#[derive(Debug, Clone, PartialEq, Eq)]
pub enum SolveEvent {
    /// It found a model.
    Model(Model),
    /// There is no further model.
    Exhausted,
    /// It failed.
    Fault(String),
}

/// Iterator over extensions.
///
/// The iterator holds the solver for as long as it lives. Whoever drives it
/// asks the solver for the next model while the iterator is producing, and
/// tells the iterator what came back. When the iterator is not needed any
/// more, in whatever state it is, it goes back to the framework, which takes
/// the solver out of it.
#[derive(Debug)]
pub struct ExtensionIter {
    handle: SolveHandle,
    state: IterState,
}

impl ExtensionIter {
    /// The enumeration that begins when the solver is checked out with the
    /// commands that it has not been given yet.
    pub(crate) fn begin(control: Control, commands: Vec<Command>) -> (iter: Self)
        ensures
            iter.phase() == IterState::Producing,
            iter.orders() == command_views(commands@),
    {
        ExtensionIter { handle: SolveHandle { control, commands }, state: IterState::Producing }
    }

    /// Ends the enumeration, in whatever state it is: gives back the solver
    /// and the commands that were not handed out.
    pub(crate) fn end(self) -> (parts: (Control, Vec<Command>))
        ensures
            command_views(parts.1@) == self.orders(),
    {
        let ExtensionIter { handle, state: _ } = self;
        let SolveHandle { control, commands } = handle;
        let mut count = Counter(control.enumerations);
        count.next();
        (Control { enumerations: count.0 }, commands)
    }

    /// Where the enumeration stands.
    pub closed spec fn phase(&self) -> IterState {
        self.state
    }

    /// The commands that the solver has to perform before its search.
    pub closed spec fn orders(&self) -> Seq<CommandView> {
        command_views(self.handle.commands@)
    }

    /// Computes [`ExtensionIter::phase`].
    pub fn state(&self) -> (state: IterState)
        ensures
            state == self.phase(),
    {
        self.state
    }

    /// Hands out the commands that the solver has to perform before its
    /// search, in this order. They are handed out once.
    pub fn take_commands(&mut self) -> (commands: Vec<Command>)
        ensures
            command_views(commands@) == old(self).orders(),
            final(self).orders() == Seq::<CommandView>::empty(),
            final(self).phase() == old(self).phase(),
    {
        let mut commands: Vec<Command> = Vec::new();
        core::mem::swap(&mut self.handle.commands, &mut commands);
        proof {
            assert(command_views(self.handle.commands@) =~= Seq::<CommandView>::empty());
        }
        commands
    }

    /// Whether the solver is to be asked for a model.
    pub fn wants_model(&self) -> (wanted: bool)
        ensures
            wanted == (self.phase() == IterState::Producing),
    {
        self.state == IterState::Producing
    }

    /// Takes what the solver answered and gives the next extension.
    ///
    /// While the iterator is producing, a model gives its extension, the
    /// end of the search gives none and exhausts the iterator, and a failure
    /// of the solver closes it with an error. An iterator that is not
    /// producing gives no extension, whatever the answer, and stays as it
    /// is.
    pub fn next(&mut self, event: SolveEvent) -> (outcome: Result<Option<Extension>, Error>)
        ensures
            final(self).orders() == old(self).orders(),
            old(self).phase() != IterState::Producing ==> outcome == Ok::<_, Error>(
                None::<Extension>,
            ) && final(self).phase() == old(self).phase(),
            old(self).phase() == IterState::Producing ==> match event {
                SolveEvent::Model(model) => {
                    &&& final(self).phase() == IterState::Producing
                    &&& outcome matches Ok(Some(extension))
                    &&& extension.wf()
                    &&& extension.set() == name_set(shown_names(model.shown@))
                },
                SolveEvent::Exhausted => final(self).phase() == IterState::Exhausted && outcome
                    == Ok::<_, Error>(None::<Extension>),
                SolveEvent::Fault(message) => {
                    &&& final(self).phase() == IterState::Closed
                    &&& outcome matches Err(error)
                    &&& error@ == ErrorView::EngineFault(message@)
                },
            },
    {
        if self.state != IterState::Producing {
            return Ok(None);
        }
        match event {
            SolveEvent::Model(model) => {
                match Extension::from_model(&model) {
                    Ok(extension) => Ok(Some(extension)),
                    Err(error) => Err(error),
                }
            },
            SolveEvent::Exhausted => {
                self.state = IterState::Exhausted;
                Ok(None)
            },
            SolveEvent::Fault(message) => {
                self.state = IterState::Closed;
                Err(Error::EngineFault(message))
            },
        }
    }
}

} // verus!
