use vstd::prelude::*;

verus! {

/// All states a coroutine can be in over its lifecycle.
#[derive(Debug, Clone, Copy, PartialEq, Eq, Structural)]
pub enum CoroutineState {
    Ready,
    Running,
    Suspended,
    Complete,
}

/// Size of each coroutine's stack.
pub const STACK_SIZE: usize = 1024 * 1024 * 2;

/// The geometry of the memory region a coroutine runs on.  Only the
/// geometry takes part in the context calculations, so only it is held
/// here; the region itself is the runtime's business.
pub(crate) struct Stack {
    pub(crate) size: usize,
}

impl Stack {
    pub(crate) fn new(size: usize) -> (s: Self)
        ensures
            s.size == size,
    {
        Stack { size }
    }
}

/// Callee-saved register file captured at a switch point (x86-64 shape):
/// the stack pointer is what resuming execution hinges on.
struct Context {
    rsp: u64,
    r15: u64,
    r14: u64,
    r13: u64,
    r12: u64,
    rbx: u64,
    rbp: u64,
}

impl Context {
    fn new() -> (c: Self)
        ensures
            c.rsp == 0,
    {
        Context { rsp: 0, r15: 0, r14: 0, r13: 0, r12: 0, rbx: 0, rbp: 0 }
    }
}

/// A coroutine: a unit of suspendable work with its own stack, saved
/// context, lifecycle state, and the function it will execute once.
pub struct Coroutine<F> {
    stack: Stack,
    context: Context,
    state: CoroutineState,
    func: Option<F>,
}

impl<F: FnOnce() -> ()> Coroutine<F> {
    pub closed spec fn state_view(&self) -> CoroutineState {
        self.state
    }

    pub closed spec fn func_view(&self) -> Option<F> {
        self.func
    }

    pub closed spec fn stack_size(&self) -> usize {
        self.stack.size
    }

    pub closed spec fn stack_pointer(&self) -> u64 {
        self.context.rsp
    }

    /// Creates a new coroutine from a function, with its stack prepared for
    /// a first run: the initial stack pointer sits at the aligned top.
    pub fn new(func: F) -> (c: Self)
        ensures
            c.state_view() is Ready,
            c.func_view() == Some(func),
            c.stack_size() == STACK_SIZE,
            c.stack_pointer() == (STACK_SIZE as u64) & (!15u64),
            c.stack_pointer() % 16 == 0,
            c.stack_pointer() <= c.stack_size() as u64,
    {
        let stack = Stack::new(STACK_SIZE);
        let mut coro = Coroutine {
            stack,
            context: Context::new(),
            state: CoroutineState::Ready,
            func: Some(func),
        };
        coro.initialize_stack();
        coro
    }

    /// Prepares the stack for first execution: the stack grows downward, so
    /// the initial stack pointer is the top of the region, aligned down to
    /// the 16-byte boundary the ABI requires.
    fn initialize_stack(&mut self)
        ensures
            final(self).stack_pointer() == (old(self).stack_size() as u64) & (!15u64),
            final(self).stack_pointer() % 16 == 0,
            final(self).stack_pointer() <= final(self).stack_size() as u64,
            final(self).stack_size() == old(self).stack_size(),
            final(self).state_view() == old(self).state_view(),
            final(self).func_view() == old(self).func_view(),
    {
        let sp: u64 = self.stack.size as u64;
        let aligned: u64 = sp & !15u64;
        proof {
            assert((sp & !15u64) % 16 == 0 && (sp & !15u64) <= sp) by (bit_vector);
        }
        self.context.rsp = aligned;
    }

    /// The coroutine's current lifecycle state.
    pub fn state(&self) -> (r: CoroutineState)
        ensures
            r == self.state_view(),
    {
        self.state
    }
}

/// A round-robin coroutine scheduler: coroutines wait in a ready queue and
/// each is driven to completion in turn.  A ghost log records the functions
/// in the order they were dispatched, which is the order they were spawned.
pub struct Scheduler<F> {
    ready_queue: Vec<Coroutine<F>>,
    current: Option<Coroutine<F>>,
    dispatched: Ghost<Seq<F>>,
}

impl<F: FnOnce() -> ()> Scheduler<F> {
    pub closed spec fn queue_view(&self) -> Seq<Coroutine<F>> {
        self.ready_queue@
    }

    pub closed spec fn current_view(&self) -> Option<Coroutine<F>> {
        self.current
    }

    /// The functions already driven to completion, in dispatch order.
    pub closed spec fn dispatched_view(&self) -> Seq<F> {
        self.dispatched@
    }

    pub fn new() -> (s: Self)
        ensures
            s.queue_view().len() == 0,
            s.current_view() is None,
            s.dispatched_view() == Seq::<F>::empty(),
    {
        Scheduler { ready_queue: Vec::new(), current: None, dispatched: Ghost(Seq::empty()) }
    }

    /// Adds a new coroutine to the scheduler.  The function must be callable
    /// unconditionally, since the scheduler decides when to run it.
    pub fn spawn(&mut self, func: F)
        requires
            call_requires(func, ()),
        ensures
            final(self).queue_view().len() == old(self).queue_view().len() + 1,
            final(self).queue_view().subrange(0, old(self).queue_view().len() as int)
                == old(self).queue_view(),
            final(self).queue_view().last().state_view() is Ready,
            final(self).queue_view().last().func_view() == Some(func),
            final(self).current_view() == old(self).current_view(),
            final(self).dispatched_view() == old(self).dispatched_view(),
    {
        let coro = Coroutine::new(func);
        self.ready_queue.push(coro);
        proof {
            assert(self.ready_queue@.subrange(0, old(self).ready_queue@.len() as int)
                =~= old(self).ready_queue@);
        }
    }

    /// How many coroutines are waiting to run.
    pub fn queue_len(&self) -> (r: usize)
        ensures
            r == self.queue_view().len(),
    {
        self.ready_queue.len()
    }

    /// The main scheduling loop: take the front coroutine, switch to it,
    /// and afterwards either requeue it (suspended) or let it drop
    /// (complete).  Each queued function is called exactly once, in the
    /// order it was spawned, so on return every one of them has run and the
    /// dispatch log has grown by exactly the queue, front to back.
    pub fn run(&mut self)
        requires
            old(self).current_view() is None,
            forall|i: int|
                0 <= i < old(self).queue_view().len()
                    ==> ((#[trigger] old(self).queue_view()[i]).func_view() matches Some(f)
                    && call_requires(f, ())),
        ensures
            final(self).queue_view().len() == 0,
            final(self).current_view() is None,
            forall|i: int|
                0 <= i < old(self).queue_view().len()
                    ==> call_ensures((#[trigger] old(self).queue_view()[i]).func_view()->0, (), ()),
            final(self).dispatched_view() == old(self).dispatched_view() + Seq::new(
                old(self).queue_view().len(),
                |i: int| old(self).queue_view()[i].func_view()->0,
            ),
    {
        let ghost q0 = self.ready_queue@;
        let ghost d0 = self.dispatched@;
        let mut processed: Ghost<int> = Ghost(0);
        while self.ready_queue.len() > 0
            invariant
                self.current_view() is None,
                0 <= processed@ <= q0.len(),
                self.ready_queue@.len() == q0.len() - processed@,
                self.ready_queue@ == q0.subrange(processed@, q0.len() as int),
                self.dispatched@ == d0 + Seq::new(
                    processed@ as nat,
                    |i: int| q0[i].func_view()->0,
                ),
                forall|i: int|
                    0 <= i < q0.len() ==> ((#[trigger] q0[i]).func_view() matches Some(f)
                        && call_requires(f, ())),
                forall|i: int|
                    0 <= i < processed@ ==> call_ensures((#[trigger] q0[i]).func_view()->0, (), ()),
            decreases self.ready_queue@.len(),
        {
            let mut coro = self.ready_queue.remove(0);
            proof {
                assert(coro == q0[processed@]);
                self.dispatched@ = self.dispatched@.push(coro.func_view()->0);
            }
            self.context_switch(&mut coro);
            self.current = Some(coro);
            match self.current.take() {
                Some(c) => {
                    match c.state() {
                        CoroutineState::Suspended => {
                            // a yield point would land here; completed work
                            // never does
                            proof {
                                assert(false);
                            }
                            self.ready_queue.push(c);
                        },
                        _ => {
                            // complete: the coroutine is dropped
                        },
                    }
                },
                None => {},
            }
            proof {
                processed@ = processed@ + 1;
                assert(self.ready_queue@ =~= q0.subrange(processed@, q0.len() as int));
                assert(self.dispatched@ =~= d0 + Seq::new(
                    processed@ as nat,
                    |i: int| q0[i].func_view()->0,
                ));
            }
        }
        proof {
            assert(self.current is None);
            assert(self.dispatched@ =~= d0 + Seq::new(
                q0.len(),
                |i: int| q0[i].func_view()->0,
            ));
        }
    }

    /// Performs the switch into a coroutine: it becomes `Running`, its
    /// function runs to the end, and it comes back `Complete`.
    fn context_switch(&mut self, coro: &mut Coroutine<F>)
        requires
            old(coro).func_view() matches Some(f) ==> call_requires(f, ()),
        ensures
            *final(self) == *old(self),
            old(coro).func_view() matches Some(f)
                ==> final(coro).state_view() is Complete && call_ensures(f, (), ()),
            old(coro).func_view() is None ==> final(coro).state_view() is Running,
            final(coro).func_view() is None,
    {
        coro.state = CoroutineState::Running;
        match coro.func.take() {
            Some(f) => {
                f();
                coro.state = CoroutineState::Complete;
            },
            None => {},
        }
    }
}

} // verus!
