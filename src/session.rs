use vstd::prelude::*;
use crate::http::{Request, Response};

verus! {

/// What a handler tells the dispatcher once it has run.
#[derive(PartialEq, Eq, Structural, Clone, Copy, Debug)]
pub enum Signal {
    /// Run the next handler.
    Continue,
    /// Run no further handler for this request.
    Stop,
}

/// A handler of a middleware chain: it reads the request, may write to the
/// response, and says whether the chain goes on.
pub trait Middleware {
    /// What the handler does: the signal it gives, and the response it
    /// leaves, on a request and the response it is handed.
    spec fn step(&self, request: &Request, response: Response) -> (Signal, Response);

    fn call(&self, request: &Request, response: &mut Response) -> (r: Signal)
        ensures
            (r, *final(response)) == self.step(request, *old(response)),
    ;
}

/// The ordered chain of handlers bound to one route, run in sequence.
pub struct Session<H> {
    pub chain: Vec<H>,
}

impl<H> Session<H> {
    /// A chain of the given handlers, in the order given.
    pub fn new(chain: Vec<H>) -> (r: Session<H>)
        ensures
            r.chain@ == chain@,
    {
        Session { chain }
    }
}

/// Where one run of a chain stands.
#[derive(PartialEq, Eq, Structural, Clone, Copy, Debug)]
pub enum ChainState {
    /// Handler `i` is the next to run.
    Running(usize),
    /// The chain ended: its last handler ran or one of them stopped it.
    Done,
    /// A handler failed; no further handler runs.
    Aborted,
}

/// What the dispatcher learns from the handler it ran.
#[derive(PartialEq, Eq, Structural, Clone, Copy, Debug)]
pub enum Event {
    Signaled(Signal),
    Fault,
}

/// The state a chain of `len` handlers starts in.
pub open spec fn start_spec(len: nat) -> ChainState {
    if len == 0 {
        ChainState::Done
    } else {
        ChainState::Running(0)
    }
}

/// The state that follows `state` in a chain of `len` handlers, on `event`.
pub open spec fn next_spec(state: ChainState, len: nat, event: Event) -> ChainState {
    match state {
        ChainState::Running(i) => match event {
            Event::Signaled(Signal::Continue) => if i + 1 < len {
                ChainState::Running((i + 1) as usize)
            } else {
                ChainState::Done
            },
            Event::Signaled(Signal::Stop) => ChainState::Done,
            Event::Fault => ChainState::Aborted,
        },
        _ => state,
    }
}

/// The state a chain of `len` handlers starts in.
pub fn start(len: usize) -> (r: ChainState)
    ensures
        r == start_spec(len as nat),
{
    if len == 0 {
        ChainState::Done
    } else {
        ChainState::Running(0)
    }
}

/// The state that follows `state` in a chain of `len` handlers, on `event`.
pub fn advance(state: ChainState, len: usize, event: Event) -> (r: ChainState)
    ensures
        r == next_spec(state, len as nat, event),
{
    match state {
        ChainState::Running(i) => match event {
            Event::Signaled(Signal::Continue) => if i < usize::MAX && i + 1 < len {
                ChainState::Running(i + 1)
            } else {
                ChainState::Done
            },
            Event::Signaled(Signal::Stop) => ChainState::Done,
            Event::Fault => ChainState::Aborted,
        },
        _ => state,
    }
}

/// A run of `chain` from handler `i` on: handler `i` is handed `response`;
/// each handler after it is handed the response that the one before it left,
/// and runs only if that one said to continue. The result is the signals of
/// the handlers that ran, in order, and the response that the last one left.
pub open spec fn run_from<H: Middleware>(chain: Seq<H>, request: Request, response: Response, i: int) -> (
    Seq<Signal>,
    Response,
)
    decreases chain.len() - i,
{
    if i < 0 || i >= chain.len() {
        (Seq::empty(), response)
    } else {
        let (signal, next) = chain[i].step(&request, response);
        if signal == Signal::Stop {
            (seq![signal], next)
        } else {
            let (rest, last) = run_from(chain, request, next, i + 1);
            (seq![signal] + rest, last)
        }
    }
}

/// Whether `signals` has the shape of the signals of a run over `n`
/// handlers: at most `n` of them, every one but the last a continue, and
/// fewer than `n` only when the last is a stop.
pub open spec fn is_run(signals: Seq<Signal>, n: nat) -> bool {
    &&& signals.len() <= n
    &&& forall|i: int| 0 <= i < signals.len() - 1 ==> #[trigger] signals[i] == Signal::Continue
    &&& signals.len() < n ==> signals.len() > 0 && signals.last() == Signal::Stop
}

/// Runs the handlers of `chain` in order on one request, each after the one
/// before it said to continue and on the response it left, and returns what
/// each handler that ran said.
pub fn run_chain<H: Middleware>(chain: &Vec<H>, request: &Request, response: &mut Response) -> (r: Vec<Signal>)
    ensures
        (r@, *final(response)) == run_from(chain@, *request, *old(response), 0),
{
    let n = chain.len();
    let mut signals: Vec<Signal> = Vec::new();
    let mut state = start(n);
    while state != ChainState::Done
        invariant
            n == chain@.len(),
            state != ChainState::Aborted,
            state matches ChainState::Running(i) ==> {
                &&& i == signals@.len()
                &&& i < n
                &&& (signals@ + run_from(chain@, *request, *response, i as int).0, run_from(
                    chain@,
                    *request,
                    *response,
                    i as int,
                ).1) == run_from(chain@, *request, *old(response), 0)
            },
            state == ChainState::Done ==> (signals@, *response) == run_from(
                chain@,
                *request,
                *old(response),
                0,
            ),
        decreases n - signals@.len(),
    {
        let i = match state {
            ChainState::Running(i) => i,
            _ => n,
        };
        let ghost before = *response;
        let ghost prev = signals@;
        let signal = chain[i].call(request, response);
        signals.push(signal);
        state = advance(state, n, Event::Signaled(signal));
        proof {
            let whole = run_from(chain@, *request, *old(response), 0);
            let here = run_from(chain@, *request, before, i as int);
            let next = run_from(chain@, *request, *response, i + 1);
            assert(prev + here.0 == whole.0 && here.1 == whole.1);
            if signal == Signal::Stop {
                assert(here.0 == seq![signal]);
                assert(signals@ =~= prev + here.0);
            } else {
                assert(here.0 == seq![signal] + next.0);
                assert(prev + here.0 =~= signals@ + next.0);
                if i + 1 >= n {
                    assert(next.0 =~= Seq::<Signal>::empty());
                    assert(signals@ =~= signals@ + next.0);
                }
            }
        }
    }
    proof {
        if n == 0 {
            assert(signals@ =~= run_from(chain@, *request, *old(response), 0).0);
        }
    }
    signals
}

/// The signals of a run from handler `i` have the shape of a run over the
/// handlers from `i` on.
pub proof fn lemma_run_shape<H: Middleware>(chain: Seq<H>, request: Request, response: Response, i: int)
    requires
        0 <= i <= chain.len(),
    ensures
        is_run(run_from(chain, request, response, i).0, (chain.len() - i) as nat),
    decreases chain.len() - i,
{
    if i < chain.len() {
        let (signal, next) = chain[i].step(&request, response);
        if signal != Signal::Stop {
            lemma_run_shape(chain, request, next, i + 1);
            let rest = run_from(chain, request, next, i + 1).0;
            let all = run_from(chain, request, response, i).0;
            assert(all == seq![signal] + rest);
            assert forall|k: int| 0 <= k < all.len() - 1 implies #[trigger] all[k] == Signal::Continue by {
                if k > 0 {
                    assert(all[k] == rest[k - 1]);
                }
            }
            if rest.len() > 0 {
                assert(all.last() == rest.last());
            }
        }
    }
}

/// Once a handler of a chain says stop, no handler after it runs: the run
/// ends with that handler.
pub proof fn lemma_stop_ends_chain<H: Middleware>(chain: Seq<H>, request: Request, response: Response, k: int)
    requires
        0 <= k < run_from(chain, request, response, 0).0.len(),
        run_from(chain, request, response, 0).0[k] == Signal::Stop,
    ensures
        run_from(chain, request, response, 0).0.len() == k + 1,
{
    let signals = run_from(chain, request, response, 0).0;
    lemma_run_shape(chain, request, response, 0);
    if k < signals.len() - 1 {
        assert(signals[k] == Signal::Continue);
    }
}

/// When every handler that runs says continue, the run reaches the end of
/// the chain: there is one signal for each of its handlers.
pub proof fn lemma_continue_runs_all<H: Middleware>(chain: Seq<H>, request: Request, response: Response)
    requires
        forall|i: int|
            0 <= i < run_from(chain, request, response, 0).0.len() ==> #[trigger] run_from(
                chain,
                request,
                response,
                0,
            ).0[i] == Signal::Continue,
    ensures
        run_from(chain, request, response, 0).0.len() == chain.len(),
{
    let signals = run_from(chain, request, response, 0).0;
    lemma_run_shape(chain, request, response, 0);
    if signals.len() < chain.len() {
        assert(signals[signals.len() - 1] == Signal::Continue);
    }
}

} // verus!
