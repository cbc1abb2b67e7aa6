//! Handle context switches between userland processes

use crate::constants::{ctx0_heap_begin, ctx0_heap_size, program_begin, program_size};
use crate::context_ll::{within, with_result, Context, Frames, RemoteCallEnter, CONTEXT_SIZE};
use crate::emulator::EmulatorState;
use crate::mpu::{protectable, read_write, Mpu};
use crate::mpu_ll::Slot;
use vstd::prelude::*;

verus! {

/// "Pointer" to a context as saved by the processor during a syscall.
///
/// Can also be a "pointer" to an empty stack
#[derive(Debug, PartialEq, Eq, Clone, Copy, Structural)]
pub struct TopOfStack {
    /// Highest-numbered address in the stack + 1
    highest: usize,
    /// Lowest-numbered address in the stack
    lowest: usize,
    /// Address of the current processor-saved context if there is one
    context: Option<usize>,
}

impl TopOfStack {
    /// Highest-numbered address in the stack + 1.
    pub closed spec fn highest(&self) -> usize {
        self.highest
    }

    /// Lowest-numbered address in the stack.
    pub closed spec fn lowest(&self) -> usize {
        self.lowest
    }

    /// Address of the current processor-saved context if there is one.
    pub closed spec fn context(&self) -> Option<usize> {
        self.context
    }

    /// The "pointer" made of the three.
    pub closed spec fn of(lowest: usize, highest: usize, context: Option<usize>) -> TopOfStack {
        TopOfStack { highest, lowest, context }
    }

    /// A "pointer" is what it is made of.
    pub broadcast proof fn lemma_of(lowest: usize, highest: usize, context: Option<usize>)
        ensures
            (#[trigger] TopOfStack::of(lowest, highest, context)).lowest() == lowest,
            TopOfStack::of(lowest, highest, context).highest() == highest,
            TopOfStack::of(lowest, highest, context).context() == context,
    {
    }

    /// Two "pointers" made of the same are the same.
    pub proof fn lemma_same(self, other: TopOfStack)
        requires
            self.lowest() == other.lowest(),
            self.highest() == other.highest(),
            self.context() == other.context(),
        ensures
            self == other,
    {
    }

    /// Where the stack ends: at the saved context if there is one, at the
    /// highest address else.
    pub open spec fn top(&self) -> usize {
        match self.context() {
            Some(c) => c,
            None => self.highest(),
        }
    }

    /// Whether the stack has room for one more context.
    pub open spec fn room(&self) -> bool {
        self.top() - CONTEXT_SIZE >= self.lowest()
    }

    /// The stack with one more context.
    pub open spec fn pushed(&self) -> TopOfStack {
        TopOfStack::of(self.lowest(), self.highest(), Some((self.top() - CONTEXT_SIZE) as usize))
    }

    /// The stack without the context at its top: empty, where no other
    /// context has room under the highest address.
    pub open spec fn popped(&self) -> TopOfStack {
        if self.top() + 2 * CONTEXT_SIZE >= self.highest() {
            TopOfStack::of(self.lowest(), self.highest(), None)
        } else {
            TopOfStack::of(self.lowest(), self.highest(), Some((self.top() + CONTEXT_SIZE) as usize))
        }
    }

    /// Generates a `TopOfStack` without any processor context associated at a
    /// given address
    pub fn empty(lowest: usize, highest: usize) -> (r: TopOfStack)
        ensures
            r == TopOfStack::of(lowest, highest, None),
    {
        TopOfStack { lowest, highest, context: None }
    }

    /// Clones current `TopOfStack`
    pub fn please_clone(&self) -> (r: TopOfStack)
        ensures
            r == *self,
    {
        TopOfStack { lowest: self.lowest, highest: self.highest, context: self.context }
    }

    /// Address of the current processor-saved context if there is one
    pub fn saved_context(&self) -> (r: Option<usize>)
        ensures
            r == self.context(),
    {
        self.context
    }

    /// Whether the stack has room for one more context
    pub fn has_room(&self) -> (r: bool)
        ensures
            r == self.room(),
    {
        let top = match self.context {
            Some(c) => c,
            None => self.highest,
        };
        top >= CONTEXT_SIZE && top - CONTEXT_SIZE >= self.lowest
    }

    /// Pushes a processor context in, on a stack that has room for it
    pub fn push_context(&mut self, frames: &mut Frames, ctxt: Context)
        requires
            old(self).room(),
            old(frames).wf(),
        ensures
            *final(self) == old(self).pushed(),
            final(frames).wf(),
            final(frames)@ == old(frames)@.insert(old(self).pushed().context().unwrap(), ctxt),
    {
        let top = match self.context {
            Some(c) => c,
            None => self.highest,
        };
        let top = top - CONTEXT_SIZE;
        frames.set(top, ctxt);
        self.context = Some(top);
    }

    /// Returns a `TopOfStack` with a processor context popped out, of one
    /// that has a processor context
    pub fn pop_context(self) -> (r: TopOfStack)
        requires
            self.context() is Some,
        ensures
            r == self.popped(),
    {
        let c = match self.context {
            Some(c) => c,
            None => self.highest,
        };
        let fits = match c.checked_add(2 * CONTEXT_SIZE) {
            Some(end) => end < self.highest,
            None => false,
        };
        if fits {
            TopOfStack { highest: self.highest, lowest: self.lowest, context: Some(c + CONTEXT_SIZE) }
        } else {
            TopOfStack { highest: self.highest, lowest: self.lowest, context: None }
        }
    }
}

/// Metadata for a context
#[derive(Debug, PartialEq, Eq, Clone, Copy, Structural)]
pub struct ContextMetadata {
    /// Function to call on a remote call
    pub remote_call_enter: RemoteCallEnter,
    /// Begin of the memory range reserved for the context
    pub begin: usize,
    /// Size of the memory range reserved for the context
    pub size: usize,
    /// Address of the top of the stack
    pub top_of_stack: TopOfStack,
    /// Begin of the memory range reserved for the heap
    pub heap_begin: usize,
    /// Size of the memory range reserved for the heap
    pub heap_size: usize,
}

impl ContextMetadata {
    /// The memory range of the context ends in the address space, and the
    /// memory protection unit can protect it.
    pub open spec fn ranged(&self) -> bool {
        &&& self.begin + self.size <= usize::MAX
        &&& protectable(self.begin, self.size)
    }

    /// Whether the memory range of the context ends in the address space and
    /// the memory protection unit can protect it
    pub fn is_ranged(&self) -> (r: bool)
        ensures
            r == self.ranged(),
    {
        self.size <= usize::MAX - self.begin && crate::mpu::is_protectable(self.begin, self.size)
    }

    /// The memory range of the context ends in the address space, the memory
    /// protection unit can protect it, and the stack, the heap and the
    /// processor context that is saved, if one is, lie inside it.
    pub open spec fn wf(&self) -> bool {
        &&& self.ranged()
        &&& self.begin <= self.top_of_stack.lowest()
        &&& self.top_of_stack.lowest() <= self.top_of_stack.highest()
        &&& self.top_of_stack.highest() <= self.begin + self.size
        &&& self.begin <= self.heap_begin
        &&& self.heap_begin + self.heap_size <= self.begin + self.size
        &&& self.top_of_stack.context() matches Some(c) ==> within(
            self.begin,
            self.size,
            c,
            CONTEXT_SIZE,
        )
    }

    /// Whether the memory range of the context ends in the address space, the
    /// memory protection unit can protect it, and the stack, the heap and the
    /// processor context that is saved lie inside it
    pub fn is_wf(&self) -> (r: bool)
        ensures
            r == self.wf(),
    {
        if !self.is_ranged() {
            return false;
        }
        let end = self.begin + self.size;
        let top = &self.top_of_stack;
        let saved = match top.context {
            Some(c) => self.begin <= c && c <= end && end - c >= CONTEXT_SIZE,
            None => true,
        };
        self.begin <= top.lowest && top.lowest <= top.highest && top.highest <= end && self.begin
            <= self.heap_begin && self.heap_begin <= end && self.heap_size <= end - self.heap_begin
            && saved
    }

    /// The metadata with another top of the stack.
    pub open spec fn with_top(&self, top: TopOfStack) -> ContextMetadata {
        ContextMetadata { top_of_stack: top, ..*self }
    }
}

/// Index inside the list of the contexts
#[derive(Debug, PartialEq, Eq, Clone, Copy, Structural)]
pub struct ContextID(usize);

/// The identifier of a context, in a place of its own that is read and set
#[derive(Debug, PartialEq, Eq, Clone, Copy, Structural)]
pub struct AtomicContextID(usize);

/// The range of the memory that unprivileged code runs in, and where its
/// stack ends
#[derive(PartialEq, Eq, Clone, Copy, Structural)]
pub struct Window {
    /// Address of the beginning of the range
    pub bottom: usize,
    /// Size of the range
    pub size: usize,
    /// Highest-numbered address in the stack + 1
    pub stack_heap_limit: usize,
}

/// What the contexts are at a moment
pub ghost struct Snapshot {
    /// The metadata of the contexts, once they are initialized
    pub contexts: Option<Seq<ContextMetadata>>,
    /// The context that runs
    pub current: usize,
    /// Begin and size of the range reserved to the heap in use; zero before
    /// any is set
    pub heap: (usize, usize),
    /// The range that the context that runs has
    pub window: Window,
    /// The contexts that wait for the context they called to return, the
    /// latest last, each with where it was
    pub calls: Seq<(ContextID, TopOfStack)>,
    /// The contexts saved on the stacks
    pub frames: Map<usize, Context>,
    /// The processor
    pub cpu: EmulatorState,
    /// The regions of the memory protection unit
    pub regions: Seq<Slot>,
    /// Whether the memory protection unit has been set up
    pub protecting: bool,
}

impl Snapshot {
    /// The range of the context that runs is the one that is recorded, and
    /// the one that the memory protection unit lets unprivileged code write.
    pub open spec fn settled(&self) -> bool {
        &&& self.contexts matches Some(cs)
        &&& self.current < cs.len()
        &&& self.window == (Window {
            bottom: cs[self.current as int].begin,
            size: cs[self.current as int].size,
            stack_heap_limit: cs[self.current as int].top_of_stack.highest(),
        })
        &&& self.regions.len() == 8
        &&& self.regions[6] == read_write(self.window.bottom, self.window.size)
    }

    /// The range of the context that runs is the one that is recorded, and
    /// the regions of the memory protection unit are those of unprivileged
    /// code that runs in that range.
    pub open spec fn protected(&self) -> bool {
        self.settled() && crate::mpu::userland(
            self.regions,
            self.window.bottom,
            self.window.size,
        )
    }

    /// The contexts that hold a call that has not returned: those that wait,
    /// and the one that runs.
    pub open spec fn chain(&self) -> Seq<usize> {
        Seq::new(self.calls.len(), |i: int| self.calls[i].0.id_spec()).push(self.current)
    }

    /// Where the context that the processor saved lies.
    pub open spec fn current_context(&self) -> TopOfStack {
        TopOfStack::of(self.window.bottom, self.window.stack_heap_limit, Some(self.cpu.other_sp))
    }

    /// Whether the context that the processor saved lies in the range of the
    /// context that runs.
    pub open spec fn framed(&self) -> bool {
        self.cpu.in_exception && within(
            self.window.bottom,
            self.window.size,
            self.cpu.other_sp,
            CONTEXT_SIZE,
        )
    }

    /// The contexts once the one that runs has called `new`: where the
    /// caller was is recorded, and the called context has one more context
    /// on its stack.
    pub open spec fn calling(&self, new: usize) -> Seq<ContextMetadata> {
        let cs = self.contexts.unwrap();
        let paused = cs.update(
            self.current as int,
            cs[self.current as int].with_top(self.current_context()),
        );
        paused.update(new as int, paused[new as int].with_top(paused[new as int].top_of_stack.pushed()))
    }

    /// Whether the one that runs can call `new`: the stack of `new` has room
    /// for one more context.
    pub open spec fn can_call(&self, new: usize) -> bool {
        let cs = self.contexts.unwrap();
        let paused = cs.update(
            self.current as int,
            cs[self.current as int].with_top(self.current_context()),
        );
        paused[new as int].top_of_stack.room()
    }

    /// What is so once the one that runs has called `new` with the context
    /// `with`, before the memory is switched.
    pub open spec fn pushed(&self, new: usize, with: Context) -> Snapshot {
        Snapshot {
            contexts: Some(self.calling(new)),
            calls: self.calls.push((ContextID::of(self.current), self.current_context())),
            current: new,
            frames: self.frames.insert(
                self.calling(new)[new as int].top_of_stack.context().unwrap(),
                with,
            ),
            ..*self
        }
    }

    /// What is so once the memory is switched to the context `to`.
    pub open spec fn switched(&self, to: usize) -> Snapshot {
        let c = self.contexts.unwrap()[to as int];
        Snapshot {
            window: Window {
                bottom: c.begin,
                size: c.size,
                stack_heap_limit: c.top_of_stack.highest(),
            },
            regions: self.regions.update(6, read_write(c.begin, c.size)),
            cpu: EmulatorState { other_sp: c.top_of_stack.context().unwrap(), ..self.cpu },
            ..*self
        }
    }

    /// The contexts once the one that runs has returned: the context that
    /// the processor saved is taken off its stack.
    pub open spec fn returning(&self) -> Seq<ContextMetadata> {
        let cs = self.contexts.unwrap();
        cs.update(
            self.current as int,
            cs[self.current as int].with_top(self.current_context().popped()),
        )
    }

    /// What is so once the one that runs has returned to the one that
    /// called it.
    pub open spec fn popped(&self) -> Snapshot {
        let next = self.calls.last().0.id_spec();
        (Snapshot {
            contexts: Some(self.returning()),
            calls: self.calls.drop_last(),
            current: next,
            ..*self
        }).switched(next)
    }

    /// The contexts are initialized, and the stack, the heap and the saved
    /// processor context of each lie in its range.
    pub open spec fn bounded(&self) -> bool {
        self.contexts matches Some(cs) && forall|i: int|
            0 <= i < cs.len() ==> (#[trigger] cs[i]).wf()
    }

    /// A call keeps the stack, the heap and the saved processor context of
    /// each context in its range, and the called context runs from a
    /// processor context that lies in its own range.
    pub proof fn law_call_bounded(self, new: usize, with: Context)
        requires
            self.bounded(),
            self.settled(),
            self.framed(),
            new < self.contexts.unwrap().len(),
            self.can_call(new),
        ensures
            self.pushed(new, with).bounded(),
            self.pushed(new, with).switched(new).bounded(),
            self.pushed(new, with).switched(new).framed(),
            self.pushed(new, with).frames[self.pushed(new, with).switched(new).cpu.other_sp]
                == with,
    {
        broadcast use TopOfStack::lemma_of;

        let cs = self.contexts.unwrap();
        let after = self.calling(new);
        assert(cs[self.current as int].wf());
        assert(cs[new as int].wf());
        assert forall|i: int| 0 <= i < after.len() implies (#[trigger] after[i]).wf() by {
            assert(cs[i].wf());
        }
    }

    /// A return keeps the stack, the heap and the saved processor context of
    /// each context in its range.
    pub proof fn law_return_bounded(self)
        requires
            self.bounded(),
            self.settled(),
            self.framed(),
        ensures
            self.popped().bounded(),
    {
        broadcast use TopOfStack::lemma_of;

        let cs = self.contexts.unwrap();
        let after = self.returning();
        assert(cs[self.current as int].wf());
        assert forall|i: int| 0 <= i < after.len() implies (#[trigger] after[i]).wf() by {
            assert(cs[i].wf());
        }
    }
}

/// The contexts, the processor that runs them and the unit that protects
/// the memory
pub struct Contexts {
    /// Whether the contexts are initialized
    initialised: bool,
    /// Metadata for each context
    contexts: Vec<ContextMetadata>,
    /// `ContextID` of the current context
    current: AtomicContextID,
    /// Address of the beginning of the range reserved to the heap of the
    /// current context
    heap_bottom: usize,
    /// Size of the range reserved to the heap of the current context
    heap_size: usize,
    /// The range reserved to the current context
    window: Window,
    /// Current context stack, each calling context being stacked, waiting
    /// for the called context to return.
    stack: Vec<(ContextID, TopOfStack)>,
    /// The contexts saved on the stacks
    frames: Frames,
    /// The processor
    cpu: EmulatorState,
    /// The memory protection unit
    mpu: Mpu,
}

impl ContextID {
    /// The number of the context.
    pub closed spec fn id_spec(&self) -> usize {
        self.0
    }

    /// The context of a number.
    pub closed spec fn of(id: usize) -> ContextID {
        ContextID(id)
    }

    /// The context of a number has that number.
    pub broadcast proof fn lemma_of(id: usize)
        ensures
            (#[trigger] ContextID::of(id)).id_spec() == id,
    {
    }

    /// A context is that of its number.
    pub proof fn lemma_id(self)
        ensures
            self == ContextID::of(self.id_spec()),
    {
    }

    /// Creates a `ContextID`, of a context that there is, once the contexts
    /// are initialized
    pub fn new(state: &Contexts, id: usize) -> (c: ContextID)
        requires
            state.wf(),
            state@.contexts matches Some(cs) && id < cs.len(),
        ensures
            c == ContextID::of(id),
    {
        ContextID(id)
    }

    /// Creates a `ContextID` without checking for validity
    pub fn from_id_unchecked(id: usize) -> (c: ContextID)
        ensures
            c == ContextID::of(id),
    {
        ContextID(id)
    }

    /// Returns the 0 context, which is always valid as referring to the OS
    /// thread
    pub fn zero() -> (c: ContextID)
        ensures
            c == ContextID::of(0),
    {
        ContextID(0)
    }

    /// Retrieves the identifier of the current context as an `usize`
    pub fn id(&self) -> (r: usize)
        ensures
            r == self.id_spec(),
    {
        self.0
    }
}

impl AtomicContextID {
    /// The number of the context.
    pub closed spec fn id_spec(&self) -> usize {
        self.0
    }

    /// Returns the 0 context, which is always valid as referring to the OS
    /// thread
    pub fn zero() -> (c: AtomicContextID)
        ensures
            c.id_spec() == 0,
    {
        AtomicContextID(0)
    }

    /// Retrieves the identifier of this context as an `usize`
    pub fn id(&self) -> (r: usize)
        ensures
            r == self.id_spec(),
    {
        self.0
    }

    /// Sets the identifier of this context from a `ContextID`
    pub fn set(&mut self, o: ContextID)
        ensures
            final(self).id_spec() == o.id_spec(),
    {
        self.0 = o.0;
    }

    /// Retrieves the identifier of this context as a `ContextID`
    pub fn ctxid(&self) -> (c: ContextID)
        ensures
            c == ContextID::of(self.id_spec()),
    {
        ContextID::from_id_unchecked(self.id())
    }
}

impl Contexts {
    /// The memory protection unit.
    pub closed spec fn mpu_spec(&self) -> Mpu {
        self.mpu
    }

    /// What the contexts are.
    pub closed spec fn view(&self) -> Snapshot {
        Snapshot {
            contexts: if self.initialised {
                Some(self.contexts@)
            } else {
                None
            },
            current: self.current.id_spec(),
            heap: (self.heap_bottom, self.heap_size),
            window: self.window,
            calls: self.stack@,
            frames: self.frames@,
            cpu: self.cpu,
            regions: self.mpu.regions(),
            protecting: self.mpu.is_setup(),
        }
    }

    /// The range of the context that runs ends in the address space. Once
    /// the contexts are initialized there is one at least, the range of each
    /// ends in the address space and can be protected, and the one that runs
    /// and those that wait are among them.
    pub closed spec fn wf(&self) -> bool {
        &&& self.frames.wf()
        &&& self.mpu.wf()
        &&& self.window.bottom + self.window.size <= usize::MAX
        &&& !self.initialised ==> self.current.id_spec() == 0 && self.stack@.len() == 0
        &&& self.initialised ==> {
            &&& self.contexts@.len() >= 1
            &&& self.current.id_spec() < self.contexts@.len()
            &&& forall|i: int|
                0 <= i < self.contexts@.len() ==> (#[trigger] self.contexts@[i]).ranged()
            &&& forall|k: int|
                0 <= k < self.stack@.len() ==> (#[trigger] self.stack@[k]).0.id_spec()
                    < self.contexts@.len()
        }
    }

    /// What holds of contexts that are as they should.
    pub proof fn lemma_wf(&self)
        requires
            self.wf(),
        ensures
            self@.regions.len() == 8,
            self@.window.bottom + self@.window.size <= usize::MAX,
            self@.contexts is None ==> self@.current == 0 && self@.calls.len() == 0,
            self@.contexts matches Some(cs) ==> cs.len() >= 1 && self@.current < cs.len() && (forall|
                i: int,
            |
                0 <= i < cs.len() ==> (#[trigger] cs[i]).ranged()) && (forall|k: int|
                0 <= k < self@.calls.len() ==> (#[trigger] self@.calls[k]).0.id_spec() < cs.len()),
    {
        self.mpu.lemma_regions();
    }

    /// The contexts before they are initialized, with a processor and a
    /// memory protection unit: the context 0 runs, and none waits
    pub fn new(cpu: EmulatorState, mpu: Mpu) -> (s: Contexts)
        requires
            mpu.wf(),
        ensures
            s.wf(),
            s@ == (Snapshot {
                contexts: None,
                current: 0,
                heap: (0, 0),
                window: Window { bottom: 0, size: 0, stack_heap_limit: 0 },
                calls: Seq::empty(),
                frames: Map::empty(),
                cpu,
                regions: mpu.regions(),
                protecting: mpu.is_setup(),
            }),
    {
        Contexts {
            initialised: false,
            contexts: Vec::new(),
            current: AtomicContextID::zero(),
            heap_bottom: 0,
            heap_size: 0,
            window: Window { bottom: 0, size: 0, stack_heap_limit: 0 },
            stack: Vec::new(),
            frames: Frames::new(),
            cpu,
            mpu,
        }
    }

    /// The processor
    pub fn cpu(&self) -> (r: &EmulatorState)
        ensures
            *r == self@.cpu,
    {
        &self.cpu
    }

    /// The memory protection unit
    pub fn mpu(&self) -> (r: &Mpu)
        requires
            self.wf(),
        ensures
            r.wf(),
            r.regions() == self@.regions,
            r.is_setup() == self@.protecting,
    {
        &self.mpu
    }

    /// The contexts saved on the stacks
    pub fn frames(&self) -> (r: &Frames)
        requires
            self.wf(),
        ensures
            r.wf(),
            r@ == self@.frames,
    {
        &self.frames
    }

    /// `ContextID` of the current context
    pub fn current(&self) -> (r: &AtomicContextID)
        ensures
            r.id_spec() == self@.current,
    {
        &self.current
    }

    /// Whether the contexts are initialized
    pub fn is_initialised(&self) -> (r: bool)
        ensures
            r == self@.contexts is Some,
    {
        self.initialised
    }

    /// How many contexts there are, none before they are initialized
    pub fn count(&self) -> (r: usize)
        ensures
            r == match self@.contexts {
                Some(cs) => cs.len(),
                None => 0,
            },
    {
        if self.initialised {
            self.contexts.len()
        } else {
            0
        }
    }

    /// The metadata of the context `id`, if there is such a context
    pub fn metadata(&self, id: usize) -> (r: Option<ContextMetadata>)
        ensures
            r == match self@.contexts {
                Some(cs) if id < cs.len() => Some(cs[id as int]),
                _ => None,
            },
    {
        if self.initialised && id < self.contexts.len() {
            Some(self.contexts[id])
        } else {
            None
        }
    }

    /// The context that called the one that runs, if one did
    pub fn caller(&self) -> (r: Option<ContextID>)
        ensures
            r == if self@.calls.len() > 0 {
                Some(self@.calls.last().0)
            } else {
                None
            },
    {
        let n = self.stack.len();
        if n > 0 {
            Some(self.stack[n - 1].0)
        } else {
            None
        }
    }

    /// How many contexts wait for the context they called to return
    pub fn depth(&self) -> (r: usize)
        ensures
            r == self@.calls.len(),
    {
        self.stack.len()
    }

    /// Retrieves the address of the beginning of the range reserved to the
    /// heap of the current context: that of the context 0 before any is set
    pub fn current_heap_bottom(&self) -> (r: usize)
        ensures
            r == if self@.heap.0 == 0 {
                0x2000_1000
            } else {
                self@.heap.0
            },
    {
        if self.heap_bottom == 0 {
            ctx0_heap_begin()
        } else {
            self.heap_bottom
        }
    }

    /// Retrieves the size of the range reserved to the heap of the current
    /// context: that of the context 0 before any is set
    pub fn current_heap_size(&self) -> (r: usize)
        ensures
            r == if self@.heap.1 == 0 {
                0x1000
            } else {
                self@.heap.1
            },
    {
        if self.heap_size == 0 {
            ctx0_heap_size()
        } else {
            self.heap_size
        }
    }

    /// Drops privileges: from now on the thread runs unprivileged, and
    /// exceptions on the stack `interrupt_stack`. This is done from
    /// privileged code in thread mode.
    pub fn drop_privileges(&mut self, interrupt_stack: usize)
        requires
            !old(self)@.cpu.in_exception,
            old(self)@.cpu.privileged,
        ensures
            final(self).wf() == old(self).wf(),
            final(self)@ == (Snapshot {
                cpu: EmulatorState {
                    privileged: false,
                    in_exception: false,
                    other_sp: interrupt_stack,
                },
                ..old(self)@
            }),
    {
        crate::emulator::drop_privileges(&mut self.cpu, interrupt_stack);
    }

    /// What the processor does when the thread, whose stack pointer is `sp`,
    /// performs a syscall: it saves the registers `regs` on the stack of the
    /// thread and handles the exception, privileged. Returns the stack
    /// pointer of the exceptions. Nothing is done, and nothing returned,
    /// where an exception is being handled already or the stack has no room.
    pub fn enter_exception(&mut self, sp: usize, regs: Context) -> (r: Option<usize>)
        requires
            old(self).wf(),
        ensures
            final(self).wf(),
            match r {
                Some(handler_sp) => {
                    &&& !old(self)@.cpu.in_exception
                    &&& sp >= CONTEXT_SIZE
                    &&& handler_sp == old(self)@.cpu.other_sp
                    &&& final(self)@ == (Snapshot {
                        frames: old(self)@.frames.insert((sp - CONTEXT_SIZE) as usize, regs),
                        cpu: EmulatorState {
                            privileged: true,
                            in_exception: true,
                            other_sp: (sp - CONTEXT_SIZE) as usize,
                        },
                        ..old(self)@
                    })
                },
                None => (old(self)@.cpu.in_exception || sp < CONTEXT_SIZE) && final(self)@ == old(
                    self,
                )@,
            },
    {
        if crate::emulator::is_in_exception(&self.cpu) || sp < CONTEXT_SIZE {
            return None;
        }
        let psp = sp - CONTEXT_SIZE;
        self.frames.set(psp, regs);
        let handler_sp = crate::emulator::syscall(&mut self.cpu, psp);
        Some(handler_sp)
    }

    /// What the processor does when the exception, whose stack pointer is
    /// `sp`, is handled: it takes the registers back from the stack of the
    /// thread, which runs again, unprivileged. Returns the registers and the
    /// stack pointer of the thread. Nothing is done, and nothing returned,
    /// where no exception is being handled or no context is saved where the
    /// stack pointer of the thread points.
    pub fn leave_exception(&mut self, sp: usize) -> (r: Option<(Context, usize)>)
        requires
            old(self).wf(),
        ensures
            final(self).wf(),
            match r {
                Some((regs, thread_sp)) => {
                    &&& old(self)@.cpu.in_exception
                    &&& old(self)@.frames.contains_key(old(self)@.cpu.other_sp)
                    &&& regs == old(self)@.frames[old(self)@.cpu.other_sp]
                    &&& thread_sp == old(self)@.cpu.other_sp + CONTEXT_SIZE
                    &&& final(self)@ == (Snapshot {
                        cpu: EmulatorState { privileged: false, in_exception: false, other_sp: sp },
                        ..old(self)@
                    })
                },
                None => final(self)@ == old(self)@ && !(old(self)@.cpu.in_exception && old(
                    self,
                )@.frames.contains_key(old(self)@.cpu.other_sp) && old(self)@.cpu.other_sp
                    + CONTEXT_SIZE <= usize::MAX),
            },
    {
        if !crate::emulator::is_in_exception(&self.cpu) {
            return None;
        }
        let psp = crate::emulator::current_psp(&self.cpu);
        if psp > usize::MAX - CONTEXT_SIZE {
            return None;
        }
        match self.frames.get(psp) {
            Some(regs) => {
                let thread_sp = crate::emulator::syscall_return(&mut self.cpu, sp);
                Some((regs, thread_sp + CONTEXT_SIZE))
            },
            None => None,
        }
    }
}

/// Initializes the list of the contexts, of which the first is the one that
/// runs
///
/// Note: there is no `deinit_contexts` or anything similar provided for the
/// time being. A reboot is required for changing the context list.
///
/// This is done once.
pub fn init_contexts(state: &mut Contexts, meta: Vec<ContextMetadata>)
    requires
        old(state).wf(),
        old(state)@.contexts is None,
        meta@.len() >= 1,
        forall|i: int| 0 <= i < meta@.len() ==> (#[trigger] meta@[i]).ranged(),
    ensures
        final(state).wf(),
        final(state)@ == (Snapshot {
            contexts: Some(meta@),
            window: Window {
                bottom: meta@[0].begin,
                size: meta@[0].size,
                stack_heap_limit: meta@[0].top_of_stack.highest(),
            },
            ..old(state)@
        }),
{
    // Record the metadata associated to context 0
    state.window = Window {
        bottom: meta[0].begin,
        size: meta[0].size,
        stack_heap_limit: meta[0].top_of_stack.highest,
    };
    // And record the context list
    state.contexts = meta;
    state.initialised = true;
}

/// Returns a pointer to the processor context unprivileged code is
/// currently in, while an exception is handled
pub fn current_context(state: &Contexts) -> (r: TopOfStack)
    requires
        state@.framed(),
    ensures
        r == state@.current_context(),
{
    TopOfStack {
        highest: state.window.stack_heap_limit,
        lowest: state.window.bottom,
        context: Some(
            crate::context_ll::current_sp(&state.cpu, state.window.bottom, state.window.size),
        ),
    }
}

/// Checks whether [addr, addr+size) is included inside the current
/// context's memory range
pub fn in_current_context(state: &Contexts, addr: usize, size: usize) -> (r: bool)
    requires
        state.wf(),
    ensures
        r == within(state@.window.bottom, state@.window.size, addr, size),
{
    let low = state.window.bottom;
    let high = low + state.window.size;
    match addr.checked_add(size) {
        Some(end) => low <= addr && end <= high,
        None => false,
    }
}

/// Whether the `size` bytes from `addr` on lie in the program.
pub open spec fn in_program(addr: usize, size: usize) -> bool {
    0x0806_0000 <= addr && addr + size <= 0x0806_0000 + 0x20000
}

/// Returns `true` iff the range `[addr, addr+size[` is readable from the
/// current context
pub fn is_readable_from_current_context(state: &Contexts, addr: usize, size: usize) -> (r: bool)
    requires
        state.wf(),
    ensures
        r == (within(state@.window.bottom, state@.window.size, addr, size) || in_program(
            addr,
            size,
        )),
{
    // It is in the current context
    in_current_context(state, addr, size)
        ||
    // Or it is in the program code
    (program_begin() <= addr && match addr.checked_add(size) {
        Some(end) => end <= program_begin() + program_size(),
        None => false,
    })
}

/// Returns `true` iff the range `[addr, addr+size[` is writable from the
/// current context
pub fn is_writable_from_current_context(state: &Contexts, addr: usize, size: usize) -> (r: bool)
    requires
        state.wf(),
    ensures
        r == within(state@.window.bottom, state@.window.size, addr, size),
{
    in_current_context(state, addr, size)
}

/// Switch the userland allowed by the memory protection unit to the one of
/// `ctxt`, running from the location stored for it. This is done while an
/// exception is handled, once the unit is set up, to a context whose stack
/// is not empty.
pub fn switch_userland(state: &mut Contexts, ctxt: ContextID)
    requires
        old(state).wf(),
        old(state)@.contexts matches Some(cs) && ctxt.id_spec() < cs.len()
            && cs[ctxt.id_spec() as int].top_of_stack.context() is Some,
        old(state)@.cpu.in_exception,
        old(state)@.protecting,
    ensures
        final(state).wf(),
        final(state)@ == old(state)@.switched(ctxt.id_spec()),
        old(state)@.current == ctxt.id_spec() ==> final(state)@.settled(),
{
    let c = state.contexts[ctxt.0];
    state.mpu.switch_userland(c.begin, c.size);
    state.window = Window {
        bottom: c.begin,
        size: c.size,
        stack_heap_limit: c.top_of_stack.highest,
    };
    match c.top_of_stack.context {
        Some(location) => crate::context_ll::switch_sp(&mut state.cpu, location),
        None => {},
    }
    proof {
        state.mpu.lemma_regions();
        old(state).mpu.lemma_regions();
    }
}

/// Sends the result of a syscall to its caller, whose saved context
/// `location` points to, while an exception is handled. Returns whether a
/// context is saved there: nothing is done where none is.
pub fn send_result(state: &mut Contexts, res: usize, location: &TopOfStack) -> (r: bool)
    requires
        old(state).wf(),
        old(state)@.cpu.in_exception,
        location.context() is Some,
    ensures
        final(state).wf(),
        r == old(state)@.frames.contains_key(location.context().unwrap()),
        r ==> final(state)@ == (Snapshot {
            frames: old(state)@.frames.insert(
                location.context().unwrap(),
                with_result(old(state)@.frames[location.context().unwrap()], res),
            ),
            ..old(state)@
        }),
        !r ==> *final(state) == *old(state),
{
    match location.context {
        Some(loc) => crate::context_ll::send_result(&state.cpu, &mut state.frames, res, loc),
        None => false,
    }
}

/// Switch current heap to the one of `ctxt`
pub fn switch_to_heap(state: &mut Contexts, ctxt: ContextID)
    requires
        old(state).wf(),
        ctxt.id_spec() != 0 ==> (old(state)@.contexts matches Some(cs) && ctxt.id_spec()
            < cs.len()),
    ensures
        final(state).wf(),
        final(state)@ == (Snapshot {
            heap: if ctxt.id_spec() == 0 {
                (0x2000_1000usize, 0x1000usize)
            } else {
                (
                    old(state)@.contexts.unwrap()[ctxt.id_spec() as int].heap_begin,
                    old(state)@.contexts.unwrap()[ctxt.id_spec() as int].heap_size,
                )
            },
            ..old(state)@
        }),
{
    if ctxt.id() == 0 {
        state.heap_bottom = ctx0_heap_begin();
        state.heap_size = ctx0_heap_size();
    } else {
        state.heap_bottom = state.contexts[ctxt.0].heap_begin;
        state.heap_size = state.contexts[ctxt.0].heap_size;
    }
}

/// Returns the function called when entering context `ctxt`
pub fn remote_call_enter(state: &Contexts, ctxt: ContextID) -> (r: RemoteCallEnter)
    requires
        state.wf(),
        state@.contexts matches Some(cs) && ctxt.id_spec() < cs.len(),
    ensures
        r == state@.contexts.unwrap()[ctxt.id_spec() as int].remote_call_enter,
{
    state.contexts[ctxt.0].remote_call_enter
}

/// Push the current userland context to the context stack, and the context
/// `with` to the stack of `new_ctxt`, which has room for it and runs from
/// now on.
///
/// This makes sense to call only from an exception handler.
pub fn push(state: &mut Contexts, new_ctxt: ContextID, with: Context)
    requires
        old(state).wf(),
        old(state)@.contexts matches Some(cs) && new_ctxt.id_spec() < cs.len(),
        old(state)@.framed(),
        old(state)@.can_call(new_ctxt.id_spec()),
    ensures
        final(state).wf(),
        final(state)@ == old(state)@.pushed(new_ctxt.id_spec(), with),
        final(state)@.chain() == old(state)@.chain().push(new_ctxt.id_spec()),
{
    // Record where execution was in previous context
    let cur = state.current.id();
    let here = current_context(state);
    let mut paused = state.contexts[cur];
    paused.top_of_stack = here;
    state.contexts[cur] = paused;
    state.stack.push((state.current.ctxid(), here));
    state.current.set(new_ctxt);

    // Switch new context to relevant `Context`
    let mut called = state.contexts[new_ctxt.0];
    called.top_of_stack.push_context(&mut state.frames, with);
    state.contexts[new_ctxt.0] = called;
    proof {
        assert(state.contexts@ =~= old(state)@.calling(new_ctxt.id_spec()));
        assert(state@.calls =~= old(state)@.pushed(new_ctxt.id_spec(), with).calls);
        assert(state@.chain() =~= old(state)@.chain().push(new_ctxt.id_spec()));
    }
}

/// Whether the context that runs can return to the one that called it: one
/// waits, and where it was is known.
pub open spec fn can_return(s: Snapshot) -> bool {
    s.calls.len() > 0 && s.returning()[s.calls.last().0.id_spec() as int].top_of_stack.context()
        is Some
}

/// Pops the last context on the context stack as the next userland context,
/// while an exception is handled.
pub fn pop(state: &mut Contexts)
    requires
        old(state).wf(),
        old(state)@.contexts is Some,
        old(state)@.framed(),
        old(state)@.protecting,
        can_return(old(state)@),
    ensures
        final(state).wf(),
        final(state)@ == old(state)@.popped(),
        final(state)@.settled(),
        old(state)@.chain() == final(state)@.chain().push(old(state)@.current),
{
    let cur = state.current.id();
    let mut done = state.contexts[cur];
    done.top_of_stack = current_context(state).pop_context();
    state.contexts[cur] = done;
    // The size of a context is added to discard the information
    // pushed by the processor after the return
    let next_context = match state.stack.pop() {
        Some(next) => next,
        None => (ContextID::zero(), done.top_of_stack),
    };
    state.current.set(next_context.0);
    proof {
        assert(state.contexts@ =~= old(state)@.returning());
        assert(state@.calls =~= old(state)@.calls.drop_last());
        assert(old(state)@.chain() =~= state@.chain().push(old(state)@.current));
    }
    switch_userland(state, next_context.0);
}

/// As many contexts hold a call that has not returned as one more than
/// wait, while none of them holds two.
pub proof fn lemma_depth(s: Snapshot)
    requires
        s.chain().no_duplicates(),
    ensures
        s.chain().to_set().len() == s.calls.len() + 1,
{
    s.chain().unique_seq_to_set();
}

/// Returns the context to be pushed for a remotecall with given entry point
/// and arguments
pub fn for_remotecall(entrypoint: RemoteCallEnter, caller: usize, arg1: usize, arg2: usize) -> (r:
    Context)
    ensures
        r == crate::context_ll::remote_frame(entrypoint, caller, arg1, arg2),
{
    crate::context_ll::for_remotecall(entrypoint, caller, arg1, arg2)
}

} // verus!
