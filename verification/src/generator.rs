use vstd::prelude::*;
use crate::coroutine::{Stack, STACK_SIZE};

verus! {

/// The internal state of a generator: the coroutine lifecycle extended with
/// a state for having yielded a value.
#[derive(Debug, Clone, Copy, PartialEq, Eq, Structural)]
pub enum GeneratorState {
    Ready,
    Yielded,
    Running,
    Complete,
}

/// Generator context: the coroutine register file extended with storage for
/// a value in flight from the generator to its caller.
struct GeneratorContext<T> {
    rsp: u64,
    r15: u64,
    r14: u64,
    r13: u64,
    r12: u64,
    rbx: u64,
    rbp: u64,
    yielded_value: Option<T>,
}

impl<T> GeneratorContext<T> {
    fn new() -> (c: Self)
        ensures
            c.rsp == 0,
            c.yielded_value is None,
    {
        GeneratorContext {
            rsp: 0,
            r15: 0,
            r14: 0,
            r13: 0,
            r12: 0,
            rbx: 0,
            rbp: 0,
            yielded_value: None,
        }
    }
}

/// How generator bodies are driven: run to the next yield point and hand
/// back `Some` value, or `None` once the body is exhausted.  The two spec
/// functions describe one resumption — the value it yields and the state it
/// leaves behind — and `resume` is bound to both, so the values a generator
/// produces are part of every implementation's contract.
pub trait GeneratorFunc<T>: Sized {
    /// The value the next resumption will yield, if any.
    spec fn next_yield(&self) -> Option<T>;

    /// The state one resumption leaves the function in.
    spec fn after_resume(&self) -> Self;

    /// Executes the generator function until the next yield point or
    /// completion.
    fn resume(&mut self) -> (r: Option<T>)
        ensures
            r == old(self).next_yield(),
            *final(self) == old(self).after_resume(),
    ;
}

/// A generator: a specialised coroutine that yields values back to its
/// caller, one per resumption, until it completes.
pub struct Generator<T, F> {
    stack: Stack,
    context: GeneratorContext<T>,
    state: GeneratorState,
    func: Option<F>,
}

impl<T, F: GeneratorFunc<T>> Generator<T, F> {
    pub closed spec fn state_view(&self) -> GeneratorState {
        self.state
    }

    pub closed spec fn func_view(&self) -> Option<F> {
        self.func
    }

    /// Creates a new generator from a generator function.
    pub fn new(func: F) -> (g: Self)
        ensures
            g.state_view() is Ready,
            g.func_view() == Some(func),
    {
        let stack = Stack::new(STACK_SIZE);
        Generator { stack, context: GeneratorContext::new(), state: GeneratorState::Ready, func: Some(func) }
    }

    /// The generator's current state.
    pub fn state(&self) -> (r: GeneratorState)
        ensures
            r == self.state_view(),
    {
        self.state
    }

    /// Advances the generator to its next value.  A completed generator
    /// stays completed and yields nothing; otherwise the stored function is
    /// resumed exactly once, its value is handed through, and the generator
    /// ends up `Yielded` exactly when a value came back, `Complete` when
    /// none did.
    pub fn next(&mut self) -> (r: Option<T>)
        ensures
            old(self).state_view() is Complete ==> r is None && *final(self) == *old(self),
            !(old(self).state_view() is Complete) ==> {
                &&& (old(self).func_view() matches Some(f) ==> r == f.next_yield()
                    && final(self).func_view() == Some(f.after_resume()))
                &&& (r is Some <==> final(self).state_view() is Yielded)
                &&& (r is None <==> final(self).state_view() is Complete)
                &&& (final(self).func_view() is Some <==> old(self).func_view() is Some)
                &&& (old(self).func_view() is None ==> r is None)
            },
    {
        match self.state {
            GeneratorState::Complete => None,
            _ => {
                self.state = GeneratorState::Running;
                let result = match self.func.take() {
                    Some(mut f) => {
                        let value = f.resume();
                        self.func = Some(f);
                        value
                    },
                    None => None,
                };
                match result {
                    Some(value) => {
                        self.state = GeneratorState::Yielded;
                        Some(value)
                    },
                    None => {
                        self.state = GeneratorState::Complete;
                        None
                    },
                }
            },
        }
    }
}

/// The generator body behind `create_range_generator`: counts from the
/// current position up to (but excluding) the end.
#[derive(Debug, Clone, Copy, PartialEq, Eq, Structural)]
pub struct RangeFunc {
    pub current: i32,
    pub end: i32,
}

impl GeneratorFunc<i32> for RangeFunc {
    open spec fn next_yield(&self) -> Option<i32> {
        if self.current < self.end {
            Some(self.current)
        } else {
            None
        }
    }

    open spec fn after_resume(&self) -> RangeFunc {
        if self.current < self.end {
            RangeFunc { current: (self.current + 1) as i32, end: self.end }
        } else {
            *self
        }
    }

    fn resume(&mut self) -> (r: Option<i32>) {
        if self.current < self.end {
            let value = self.current;
            self.current = self.current + 1;
            Some(value)
        } else {
            None
        }
    }
}

/// A generator producing the integers from `start` up to (but excluding)
/// `end`, in order: the stored cursor yields its position and advances on
/// every resumption, so successive `next` calls return `start`,
/// `start + 1`, ... and `None` from `end` on.
pub fn create_range_generator(start: i32, end: i32) -> (g: Generator<i32, RangeFunc>)
    ensures
        g.state_view() is Ready,
        g.func_view() == Some((RangeFunc { current: start, end })),
        start < end ==> (g.func_view()->0).next_yield() == Some(start),
        start >= end ==> (g.func_view()->0).next_yield() is None,
{
    Generator::new(RangeFunc { current: start, end })
}

} // verus!
