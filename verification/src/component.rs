//! Components: what a node of a graph does, and the registry that makes them.

use vstd::prelude::*;
use crate::dag::DAGError;
use crate::json::Json;
use crate::text::same_text;

pub use crate::data::{ChannelState, Data, DataModel};
pub use crate::datatype::{DataType, TypeModel};

verus! {

/// What a component returns.
pub type ComponentResult = Result<Data, DAGError>;

/// The behaviour of a node.
pub trait Component: Send + Sync + 'static {
    /// Makes the component from its configuration. It does not fail: a
    /// component that cannot work with the configuration says so in
    /// `configuration_error`, or fails when it is executed.
    fn configure(config: Json) -> Self where Self: Sized;

    /// Computes the output for an input.
    fn execute(&self, input: Data) -> ComponentResult;

    /// The type of the inputs that the component accepts.
    fn input_type(&self) -> DataType;

    /// The type of the outputs that the component produces.
    fn output_type(&self) -> DataType;

    /// Whether the component hands out a channel to be awaited downstream.
    /// A component that does not say so does not.
    fn is_deferrable(&self) -> (res: bool)
        default_ensures
            !res,
    {
        false
    }

    /// Why the component cannot work with the configuration it was made
    /// from, if it cannot. A component that does not say so can.
    fn configuration_error(&self) -> (res: Option<String>)
        default_ensures
            res is None,
    {
        None
    }
}

/// A component of any kind, as a graph holds it.
pub struct Configured {
    pub component: Box<dyn Component>,
}

/// Makes components of one kind.
pub trait ComponentFactory: Send + Sync {
    /// Makes a component from its configuration.
    fn build(&self, config: Json) -> Configured;
}

/// The factory of the components of type `C`: it configures one.
pub struct Configure<C> {
    marker: std::marker::PhantomData<C>,
}

impl<C: Component> ComponentFactory for Configure<C> {
    fn build(&self, config: Json) -> Configured {
        Configured { component: Box::new(C::configure(config)) }
    }
}

/// A name and the factory registered under it.
struct Registration {
    name: String,
    factory: Box<dyn ComponentFactory>,
}

/// The registration of the component type `C` under `name`.
fn registration<C: Component>(name: &str) -> (res: Registration)
    ensures
        res.name@ == name@,
{
    Registration {
        name: name.to_owned(),
        factory: Box::new(Configure::<C> { marker: std::marker::PhantomData }),
    }
}

/// The component types that a graph may name, each with the factory that
/// makes its components.
pub struct ComponentRegistry {
    components: Vec<Registration>,
}

impl ComponentRegistry {
    /// No name is registered twice.
    pub open spec fn well_formed(&self) -> bool {
        self.names().no_duplicates()
    }

    /// The registered names, in the order in which they were first
    /// registered.
    pub closed spec fn names(&self) -> Seq<Seq<char>> {
        Seq::new(self.components@.len(), |i: int| self.components@[i].name@)
    }

    /// The factory of each registered name, in the order of the names.
    pub closed spec fn factories(&self) -> Seq<Box<dyn ComponentFactory>> {
        Seq::new(self.components@.len(), |i: int| self.components@[i].factory)
    }

    /// Whether a component type of this name is registered.
    pub open spec fn contains(&self, name: Seq<char>) -> bool {
        self.names().contains(name)
    }

    /// Whether `i` is the first position at which `name` is registered.
    pub open spec fn registered_at(&self, name: Seq<char>, i: int) -> bool {
        &&& 0 <= i < self.names().len()
        &&& self.names()[i] == name
        &&& forall|j: int| 0 <= j < i ==> self.names()[j] != name
    }

    /// A registry without component types.
    pub fn new() -> (res: Self)
        ensures
            res.names() == Seq::<Seq<char>>::empty(),
            res.factories().len() == 0,
            res.well_formed(),
    {
        let res = ComponentRegistry { components: Vec::new() };
        assert(res.names() =~= Seq::<Seq<char>>::empty());
        res
    }

    /// The position of a name among the registered ones.
    fn position(&self, name: &str) -> (res: Option<usize>)
        ensures
            res matches Some(i) ==> i < self.components@.len() && self.components@[i as int].name@
                == name@ && self.registered_at(name@, i as int),
            res is None ==> !self.contains(name@),
    {
        let mut i: usize = 0;
        while i < self.components.len()
            invariant
                i <= self.components@.len(),
                forall|j: int| 0 <= j < i ==> self.components@[j].name@ != name@,
            decreases self.components@.len() - i,
        {
            if same_text(self.components[i].name.as_str(), name) {
                return Some(i);
            }
            i = i + 1;
        }
        None
    }

    /// Registers the component type `C` under `name`. A type registered
    /// under that name before is replaced, and keeps its place. What is
    /// registered under other names stays as it is.
    pub fn register<C: Component>(&mut self, name: &str)
        ensures
            final(self).names() == if old(self).contains(name@) {
                old(self).names()
            } else {
                old(self).names().push(name@)
            },
            final(self).factories().len() == final(self).names().len(),
            forall|j: int|
                0 <= j < old(self).names().len() && !old(self).registered_at(name@, j) ==> (
                #[trigger] final(self).factories()[j]) == old(self).factories()[j],
            old(self).well_formed() ==> final(self).well_formed(),
    {
        let entry = registration::<C>(name);
        match self.position(name) {
            Some(i) => {
                assert(self.names()[i as int] == name@);
                self.components.set(i, entry);
                assert(self.names() =~= old(self).names());
            },
            None => {
                self.components.push(entry);
                assert(self.names() =~= old(self).names().push(name@));
            },
        }
    }

    /// The registered names, in the order in which they were first
    /// registered.
    pub fn registered(&self) -> (res: Vec<String>)
        ensures
            res@.len() == self.names().len(),
            forall|i: int| 0 <= i < res@.len() ==> (#[trigger] res@[i])@ == self.names()[i],
    {
        let mut names: Vec<String> = Vec::new();
        let mut i: usize = 0;
        while i < self.components.len()
            invariant
                i <= self.components@.len(),
                names@.len() == i,
                forall|j: int| 0 <= j < i ==> (#[trigger] names@[j])@ == self.components@[j].name@,
            decreases self.components@.len() - i,
        {
            names.push(self.components[i].name.clone());
            i = i + 1;
        }
        names
    }

    /// The factory registered under `name`. `None` where none is.
    pub fn get(&self, name: &str) -> (res: Option<&Box<dyn ComponentFactory>>)
        ensures
            res is Some <==> self.contains(name@),
            res matches Some(factory) ==> exists|i: int|
                #[trigger] self.registered_at(name@, i) && *factory == self.factories()[i],
    {
        match self.position(name) {
            Some(i) => {
                assert(self.names()[i as int] == name@);
                Some(&self.components[i].factory)
            },
            None => None,
        }
    }
}

} // verus!
