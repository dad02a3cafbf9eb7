//! The registry: the handlers of every event, as the modules declared
//! them.

use vstd::prelude::*;
use crate::declaration::{
    descriptor_views, lemma_scan_prefix, scan, scan_entry, DeclarationError, DescriptorView,
    HandlerDescriptor, LoadFailure,
};
use crate::order::{
    for_event, lemma_filter_non_increasing, lemma_filter_push, lemma_running_order_is_stable,
    lemma_running_order_within_event, non_increasing, running_order, sort_by_priority,
};
use crate::value::{views, ScriptValue, ValueView};

verus! {

/// A module that could not be loaded, and why.
#[derive(Debug, PartialEq, Eq)]
pub struct LoadError {
    /// Where the module came from.
    pub module: String,
    pub failure: LoadFailure,
}

/// A script module after evaluation.
#[derive(Debug, PartialEq, Eq)]
pub struct Module {
    /// Where the module came from.
    pub path: String,
    /// The entries that the module yielded, in the order in which the
    /// runtime handed them out; `None` where the source was malformed.
    pub entries: Option<Vec<ScriptValue>>,
}

/// The mathematical content of a [`Module`].
pub struct ModuleView {
    pub path: Seq<char>,
    pub entries: Option<Seq<ValueView>>,
}

impl View for Module {
    type V = ModuleView;

    open spec fn view(&self) -> ModuleView {
        ModuleView {
            path: self.path@,
            entries: match self.entries {
                Some(entries) => Some(views(entries@)),
                None => None,
            },
        }
    }
}

/// The handlers that a module declares, or why it cannot be loaded.
pub open spec fn discovered(module: ModuleView) -> Result<Seq<DescriptorView>, LoadFailure> {
    match module.entries {
        Some(entries) => scan(entries),
        None => Err(LoadFailure::MalformedSource),
    }
}

/// The handlers that modules have declared so far, in the order in which
/// they were found. Loading appends; [`Loader::finish`] puts them in order,
/// once.
pub struct Loader {
    handlers: Vec<HandlerDescriptor>,
}

impl Loader {
    /// The handlers found so far, in the order in which they were found.
    pub closed spec fn found(&self) -> Seq<DescriptorView> {
        descriptor_views(self.handlers@)
    }

    /// A load phase in which nothing has been loaded yet.
    pub fn new() -> (loader: Loader)
        ensures
            loader.found() == Seq::<DescriptorView>::empty(),
    {
        let loader = Loader { handlers: Vec::new() };
        assert(loader.found() =~= Seq::<DescriptorView>::empty());
        loader
    }

    /// Adds the handlers that `module` declares behind those found
    /// before. A module that cannot be loaded adds none, and the error
    /// names it.
    pub fn load(&mut self, module: &Module) -> (loaded: Result<(), LoadError>)
        ensures
            match loaded {
                Ok(()) => discovered(module@) matches Ok(found) && final(self).found() == old(
                    self,
                ).found() + found,
                Err(error) => discovered(module@) == Err::<Seq<DescriptorView>, LoadFailure>(
                    error.failure,
                ) && error.module@ == module.path@ && final(self).found() == old(self).found(),
            },
    {
        let entries = match &module.entries {
            Some(entries) => entries,
            None => {
                return Err(
                    LoadError { module: module.path.clone(), failure: LoadFailure::MalformedSource },
                );
            },
        };
        let ghost given = views(entries@);
        let mut found: Vec<HandlerDescriptor> = Vec::new();
        let mut i: usize = 0;
        assert(given.take(0) =~= Seq::<ValueView>::empty());
        assert(descriptor_views(found@) =~= Seq::<DescriptorView>::empty());
        while i < entries.len()
            invariant
                i <= entries.len(),
                given == views(entries@),
                *self == *old(self),
                module@.entries == Some(given),
                scan(given.take(i as int)) == Ok::<Seq<DescriptorView>, LoadFailure>(
                    descriptor_views(found@),
                ),
            decreases entries.len() - i,
        {
            proof {
                lemma_scan_prefix(given, i as int + 1);
                assert(given.take(i as int + 1).drop_last() =~= given.take(i as int));
                assert(given.take(i as int + 1).last() == entries@[i as int]@);
            }
            let ghost before = descriptor_views(found@);
            match scan_entry(&entries[i]) {
                Ok(Some(descriptor)) => {
                    found.push(descriptor);
                    assert(descriptor_views(found@) =~= before.push(descriptor@));
                },
                Ok(None) => {},
                Err(error) => {
                    let failure = match error {
                        DeclarationError::EventNotText => LoadFailure::EventNotText(i),
                        DeclarationError::ImplNotCallable => LoadFailure::ImplNotCallable(i),
                    };
                    return Err(LoadError { module: module.path.clone(), failure });
                },
            }
            i += 1;
        }
        assert(given.take(i as int) =~= given);
        let ghost registered = self.found();
        let ghost added = descriptor_views(found@);
        self.handlers.append(&mut found);
        assert(self.found() =~= registered + added);
        Ok(())
    }

    /// The handlers found so far, in the order in which they were found.
    pub fn handlers(&self) -> (handlers: &Vec<HandlerDescriptor>)
        ensures
            descriptor_views(handlers@) == self.found(),
    {
        &self.handlers
    }

    /// Ends the load phase: the registry holds the handlers that were
    /// found, in the order in which they run.
    pub fn finish(self) -> (registry: Registry)
        ensures
            registry.all() == running_order(self.found()),
            forall|event_name: Seq<char>| #[trigger]
                registry.handlers(event_name) == running_order(
                    self.found().filter(for_event(event_name)),
                ),
    {
        let sorted = sort_by_priority(&self.handlers);
        proof {
            lemma_running_order_is_stable(self.found());
        }
        let registry = Registry { handlers: sorted };
        proof {
            assert forall|event_name: Seq<char>| #[trigger]
                registry.handlers(event_name) == running_order(
                    self.found().filter(for_event(event_name)),
                ) by {
                lemma_running_order_within_event(self.found(), event_name);
            }
        }
        registry
    }
}

/// The handlers of all events, those of each event in the order in which
/// they run. A registry is made once and read from then on.
pub struct Registry {
    handlers: Vec<HandlerDescriptor>,
}

impl Registry {
    /// What holds of every registry: no handler stands before one of a
    /// higher priority.
    #[verifier::type_invariant]
    closed spec fn in_running_order(&self) -> bool {
        non_increasing(descriptor_views(self.handlers@))
    }

    /// All registered handlers, in the order in which they run.
    pub closed spec fn all(&self) -> Seq<DescriptorView> {
        descriptor_views(self.handlers@)
    }

    /// The handlers of one event, in the order in which they run. An
    /// event that nothing was registered for has none.
    pub open spec fn handlers(&self, event_name: Seq<char>) -> Seq<DescriptorView> {
        self.all().filter(for_event(event_name))
    }

    /// A registry without handlers.
    pub fn new() -> (registry: Registry)
        ensures
            registry.all() == Seq::<DescriptorView>::empty(),
    {
        let registry = Registry { handlers: Vec::new() };
        assert(registry.all() =~= Seq::<DescriptorView>::empty());
        registry
    }

    /// The handlers of the event `event_name`, in the order in which they
    /// stand in the registry.
    pub fn handlers_for(&self, event_name: &str) -> (handlers: Vec<HandlerDescriptor>)
        ensures
            descriptor_views(handlers@) == self.handlers(event_name@),
            non_increasing(self.handlers(event_name@)),
    {
        proof {
            use_type_invariant(self);
            lemma_filter_non_increasing(self.all(), for_event(event_name@));
        }
        let wanted = String::from_str(event_name);
        let ghost of_event = for_event(event_name@);
        let mut handlers: Vec<HandlerDescriptor> = Vec::new();
        let mut i: usize = 0;
        proof {
            reveal(Seq::filter);
            assert(self.all().take(0) =~= Seq::<DescriptorView>::empty());
            assert(descriptor_views(handlers@) =~= Seq::<DescriptorView>::empty());
        }
        while i < self.handlers.len()
            invariant
                i <= self.handlers.len(),
                wanted@ == event_name@,
                of_event == for_event(event_name@),
                descriptor_views(handlers@) == self.all().take(i as int).filter(of_event),
            decreases self.handlers.len() - i,
        {
            let ghost before = descriptor_views(handlers@);
            proof {
                assert(self.all().take(i as int + 1) =~= self.all().take(i as int).push(
                    self.handlers@[i as int]@,
                ));
                lemma_filter_push(self.all().take(i as int), self.handlers@[i as int]@, of_event);
            }
            if self.handlers[i].event_name == wanted {
                handlers.push(self.handlers[i].clone());
                assert(descriptor_views(handlers@) =~= before.push(self.handlers@[i as int]@));
            }
            i += 1;
        }
        assert(self.all().take(i as int) =~= self.all());
        handlers
    }
}

/// The contents of a list of modules.
pub open spec fn module_views(modules: Seq<Module>) -> Seq<ModuleView> {
    Seq::new(modules.len(), |i: int| modules[i]@)
}

/// The handlers that a list of modules declares, module by module, or
/// the position of the first module that cannot be loaded and why it
/// cannot.
pub open spec fn discovered_all(modules: Seq<ModuleView>) -> Result<
    Seq<DescriptorView>,
    (int, LoadFailure),
>
    decreases modules.len(),
{
    if modules.len() == 0 {
        Ok(Seq::empty())
    } else {
        match discovered_all(modules.drop_last()) {
            Err(refusal) => Err(refusal),
            Ok(found) => match discovered(modules.last()) {
                Ok(more) => Ok(found + more),
                Err(failure) => Err((modules.len() - 1, failure)),
            },
        }
    }
}

/// A module among the first that cannot be loaded is the one that stops
/// the whole list.
proof fn lemma_discovered_all_prefix(modules: Seq<ModuleView>, n: int)
    requires
        0 <= n <= modules.len(),
    ensures
        discovered_all(modules.take(n)) matches Err(refusal) ==> discovered_all(modules) == Err::<
            Seq<DescriptorView>,
            (int, LoadFailure),
        >(refusal),
    decreases modules.len() - n,
{
    if n < modules.len() {
        lemma_discovered_all_prefix(modules, n + 1);
        assert(modules.take(n + 1).drop_last() =~= modules.take(n));
    } else {
        assert(modules.take(n) =~= modules);
    }
}

/// Loads the modules in the order given and then sorts the handlers of
/// every event once. The first module that cannot be loaded ends the
/// load: no module behind it is looked at and no registry is made.
pub fn load_plugins(modules: &Vec<Module>) -> (loaded: Result<Registry, LoadError>)
    ensures
        match loaded {
            Ok(registry) => {
                &&& discovered_all(module_views(modules@)) matches Ok(found)
                &&& registry.all() == running_order(found)
                &&& forall|event_name: Seq<char>| #[trigger]
                    registry.handlers(event_name) == running_order(
                        found.filter(for_event(event_name)),
                    )
            },
            Err(error) => {
                &&& discovered_all(module_views(modules@)) matches Err((at, failure))
                &&& 0 <= at < modules.len()
                &&& error.module@ == modules[at].path@
                &&& error.failure == failure
            },
        },
{
    let ghost given = module_views(modules@);
    let mut loader = Loader::new();
    let mut i: usize = 0;
    assert(given.take(0) =~= Seq::<ModuleView>::empty());
    while i < modules.len()
        invariant
            i <= modules.len(),
            given == module_views(modules@),
            discovered_all(given.take(i as int)) == Ok::<Seq<DescriptorView>, (int, LoadFailure)>(
                loader.found(),
            ),
        decreases modules.len() - i,
    {
        proof {
            lemma_discovered_all_prefix(given, i as int + 1);
            assert(given.take(i as int + 1).drop_last() =~= given.take(i as int));
            assert(given.take(i as int + 1).last() == modules@[i as int]@);
        }
        match loader.load(&modules[i]) {
            Ok(()) => {},
            Err(error) => {
                return Err(error);
            },
        }
        i += 1;
    }
    assert(given.take(i as int) =~= given);
    let registry = loader.finish();
    Ok(registry)
}

} // verus!
