//! Composable processing stages: each stage declares an input and an output
//! type, and `link` chains a stage whose output type matches another's input
//! type into one combined stage.

use vstd::prelude::*;

use crate::error::TransportResult;

verus! {

/// A processing stage. `accepts` says which inputs it transforms; `post`
/// relates each accepted input to the outputs it may produce.
pub trait ChainProcessor {
    /// The type a stage consumes.
    type Input;

    /// The type a stage produces.
    type Output;

    /// The inputs this stage transforms. It fails on all others.
    spec fn accepts(&self, input: Self::Input) -> bool;

    /// What holds of an output produced from an input.
    spec fn post(&self, input: Self::Input, output: Self::Output) -> bool;

    /// Transforms one input. Success is owed on every accepted input, and
    /// each output satisfies the stage's relation.
    fn process(&self, input: Self::Input) -> (r: TransportResult<Self::Output>)
        ensures
            r matches Ok(o) ==> self.post(input, o),
            r is Err ==> !self.accepts(input),
    ;
}

/// Two stages combined: the first's output feeds the second.
pub struct ProcessChainLink<A, B> {
    /// The stage that runs first.
    pub process_chain_linkage: A,
    /// The stage that consumes the first stage's output.
    pub process_chain_fn: B,
}

/// Chains two stages: the combined stage accepts an input when the first
/// stage accepts it and every possible intermediate is accepted by the
/// second.
pub fn link<A: ChainProcessor, B: ChainProcessor<Input = A::Output>>(linkage: A, function: B) -> (
    r: ProcessChainLink<A, B>)
    ensures
        r.stages() == (linkage, function),
{
    ProcessChainLink { process_chain_linkage: linkage, process_chain_fn: function }
}

impl<A, B> ProcessChainLink<A, B> {
    /// The two stages of the link.
    pub open spec fn stages(self) -> (A, B) {
        (self.process_chain_linkage, self.process_chain_fn)
    }

    /// Takes the link apart into its two stages.
    pub fn into_outer(self) -> (r: (A, B))
        ensures
            r == self.stages(),
    {
        (self.process_chain_linkage, self.process_chain_fn)
    }
}

impl<A: ChainProcessor, B: ChainProcessor<Input = A::Output>> ChainProcessor for ProcessChainLink<
    A,
    B,
> {
    type Input = A::Input;

    type Output = B::Output;

    open spec fn accepts(&self, input: A::Input) -> bool {
        self.process_chain_linkage.accepts(input) && (forall|mid: A::Output|
            #[trigger] self.process_chain_linkage.post(input, mid)
                ==> self.process_chain_fn.accepts(mid))
    }

    open spec fn post(&self, input: A::Input, output: B::Output) -> bool {
        exists|mid: A::Output|
            self.process_chain_linkage.post(input, mid) && #[trigger] self.process_chain_fn.post(
                mid,
                output,
            )
    }

    fn process(&self, input: A::Input) -> (r: TransportResult<B::Output>) {
        let mid = match self.process_chain_linkage.process(input) {
            Ok(m) => m,
            Err(e) => {
                return Err(e);
            },
        };
        match self.process_chain_fn.process(mid) {
            Ok(o) => Ok(o),
            Err(e) => Err(e),
        }
    }
}

} // verus!
