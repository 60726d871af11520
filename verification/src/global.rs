//! An allocator that switches between a coroutine local, a thread local and a global allocator.
//!
//! New allocations go to the allocator currently in use; memory is given back to, and resized
//! by, the allocator whose memory range holds it, the global one when no local one does.
use vstd::prelude::*;
use crate::allocator::{AllocError, Allocator};
use crate::local_allocator::LocalAllocator;

verus! {

/// Which allocator new allocations go to.
#[derive(Clone, Copy, Debug, PartialEq, Eq, Structural)]
pub enum CurrentAllocatorInUse {
    /// The coroutine local allocator.
    CoroutineLocal,
    /// The thread local allocator.
    ThreadLocal,
    /// The global allocator.
    Global,
}

/// A hint for choosing a memory allocator.
#[derive(Clone, Copy, Debug, PartialEq, Eq, Structural)]
pub enum LifetimeHint {
    /// For contexts with short-lived lifetimes: very fast allocation and almost costless
    /// deallocation, at the expense of the strong likelihood of running out of memory.
    ShortLived,
    /// For contexts with slightly longer than short-lived lifetimes: slower allocation and
    /// deallocation, but cheaper reallocation.
    MediumLived,
    /// For contexts with long-lived lifetimes.
    LongLived,
}

/// The state each thread keeps: the allocator in use and the local allocators, if any.
pub struct PerThreadState<CoroutineLocalAllocator: LocalAllocator, ThreadLocalAllocator: LocalAllocator> {
    pub current_allocator_in_use: CurrentAllocatorInUse,
    pub coroutine_local_allocator: Option<CoroutineLocalAllocator>,
    pub thread_local_allocator: Option<ThreadLocalAllocator>,
}

impl<CoroutineLocalAllocator: LocalAllocator, ThreadLocalAllocator: LocalAllocator> PerThreadState<CoroutineLocalAllocator, ThreadLocalAllocator> {
    /// No local allocators, and the global allocator in use.
    pub fn empty() -> (state: Self)
        ensures
            state.current_allocator_in_use == CurrentAllocatorInUse::Global,
            state.coroutine_local_allocator is None,
            state.thread_local_allocator is None,
    {
        PerThreadState {
            current_allocator_in_use: CurrentAllocatorInUse::Global,
            coroutine_local_allocator: None,
            thread_local_allocator: None,
        }
    }
}

/// An allocator that switches between a coroutine local, a thread local and a global
/// allocator.
pub trait GlobalThreadAndCoroutineSwitchableAllocator: Allocator {
    /// Type of the coroutine local allocator.
    type CoroutineLocalAllocator: LocalAllocator;

    /// Type of the thread local allocator.
    type ThreadLocalAllocator: LocalAllocator;

    /// Type of the global allocator.
    type GlobalAllocator: Allocator;

    /// The allocator in use for new allocations.
    spec fn current_in_use(&self) -> CurrentAllocatorInUse;

    /// The coroutine local allocator, if any.
    spec fn coroutine_local(&self) -> Option<Self::CoroutineLocalAllocator>;

    /// The thread local allocator, if any.
    spec fn thread_local(&self) -> Option<Self::ThreadLocalAllocator>;

    /// The global allocator.
    spec fn global(&self) -> Self::GlobalAllocator;

    /// Swaps the coroutine local allocator; used before and after calling a coroutine.
    fn replace_coroutine_local_allocator(&mut self, replacement: Option<Self::CoroutineLocalAllocator>) -> (replaced: Option<Self::CoroutineLocalAllocator>)
        ensures
            replaced == old(self).coroutine_local(),
            final(self).coroutine_local() == replacement,
            final(self).thread_local() == old(self).thread_local(),
            final(self).global() == old(self).global(),
            final(self).current_in_use() == old(self).current_in_use(),
    ;

    /// Initializes the thread local allocator.
    fn initialize_thread_local_allocator(&mut self, thread_local_allocator: Self::ThreadLocalAllocator)
        requires
            old(self).thread_local() is None,
        ensures
            final(self).thread_local() == Some(thread_local_allocator),
            final(self).coroutine_local() == old(self).coroutine_local(),
            final(self).global() == old(self).global(),
            final(self).current_in_use() == old(self).current_in_use(),
    ;

    /// Drops the thread local allocator.
    fn drop_thread_local_allocator(&mut self)
        requires
            old(self).thread_local() is Some,
        ensures
            final(self).thread_local() is None,
            final(self).coroutine_local() == old(self).coroutine_local(),
            final(self).global() == old(self).global(),
            final(self).current_in_use() == old(self).current_in_use(),
    ;

    /// The allocator in use for new allocations.
    fn save_current_allocator_in_use(&self) -> (current: CurrentAllocatorInUse)
        ensures
            current == self.current_in_use(),
    ;

    /// Makes `restore_to` the allocator in use for new allocations.
    fn restore_current_allocator_in_use(&mut self, restore_to: CurrentAllocatorInUse)
        ensures
            final(self).current_in_use() == restore_to,
            final(self).coroutine_local() == old(self).coroutine_local(),
            final(self).thread_local() == old(self).thread_local(),
            final(self).global() == old(self).global(),
    ;

    /// Makes `replacement` the allocator in use for new allocations and returns the one that
    /// was.
    fn replace_current_allocator_in_use(&mut self, replacement: CurrentAllocatorInUse) -> (was: CurrentAllocatorInUse)
        ensures
            was == old(self).current_in_use(),
            final(self).current_in_use() == replacement,
            final(self).coroutine_local() == old(self).coroutine_local(),
            final(self).thread_local() == old(self).thread_local(),
            final(self).global() == old(self).global(),
    {
        let was = self.save_current_allocator_in_use();
        self.restore_current_allocator_in_use(replacement);
        was
    }

    /// Switches the allocator in use to `different`, runs `callback` with this allocator, and
    /// switches back to the allocator that was in use.
    fn callback_with_different_current_allocator<R, F: FnOnce(&mut Self) -> R>(&mut self, different: CurrentAllocatorInUse, callback: F) -> (result: R)
        requires
            forall|allocator: &mut Self| #[trigger] call_requires(callback, (allocator,)),
        ensures
            final(self).current_in_use() == old(self).current_in_use(),
            exists|allocator: &mut Self|
                #[trigger] call_ensures(callback, (allocator,), result) && allocator.current_in_use() == different
                    && allocator.coroutine_local() == old(self).coroutine_local()
                    && allocator.thread_local() == old(self).thread_local()
                    && allocator.global() == old(self).global(),
    {
        let restore_to = self.save_current_allocator_in_use();
        self.restore_current_allocator_in_use(different);
        let result = callback(self);
        self.restore_current_allocator_in_use(restore_to);
        result
    }

    /// Runs `callback` with the coroutine local allocator in use, then switches back.
    fn callback_with_coroutine_local_allocator<R, F: FnOnce(&mut Self) -> R>(&mut self, callback: F) -> (result: R)
        requires
            forall|allocator: &mut Self| #[trigger] call_requires(callback, (allocator,)),
        ensures
            final(self).current_in_use() == old(self).current_in_use(),
            exists|allocator: &mut Self|
                #[trigger] call_ensures(callback, (allocator,), result) && allocator.current_in_use() == CurrentAllocatorInUse::CoroutineLocal
                    && allocator.coroutine_local() == old(self).coroutine_local()
                    && allocator.thread_local() == old(self).thread_local()
                    && allocator.global() == old(self).global(),
    {
        self.callback_with_different_current_allocator(CurrentAllocatorInUse::CoroutineLocal, callback)
    }

    /// Runs `callback` with the thread local allocator in use, then switches back.
    fn callback_with_thread_local_allocator<R, F: FnOnce(&mut Self) -> R>(&mut self, callback: F) -> (result: R)
        requires
            forall|allocator: &mut Self| #[trigger] call_requires(callback, (allocator,)),
        ensures
            final(self).current_in_use() == old(self).current_in_use(),
            exists|allocator: &mut Self|
                #[trigger] call_ensures(callback, (allocator,), result) && allocator.current_in_use() == CurrentAllocatorInUse::ThreadLocal
                    && allocator.coroutine_local() == old(self).coroutine_local()
                    && allocator.thread_local() == old(self).thread_local()
                    && allocator.global() == old(self).global(),
    {
        self.callback_with_different_current_allocator(CurrentAllocatorInUse::ThreadLocal, callback)
    }

    /// Runs `callback` with the global allocator in use, then switches back.
    fn callback_with_global_allocator<R, F: FnOnce(&mut Self) -> R>(&mut self, callback: F) -> (result: R)
        requires
            forall|allocator: &mut Self| #[trigger] call_requires(callback, (allocator,)),
        ensures
            final(self).current_in_use() == old(self).current_in_use(),
            exists|allocator: &mut Self|
                #[trigger] call_ensures(callback, (allocator,), result) && allocator.current_in_use() == CurrentAllocatorInUse::Global
                    && allocator.coroutine_local() == old(self).coroutine_local()
                    && allocator.thread_local() == old(self).thread_local()
                    && allocator.global() == old(self).global(),
    {
        self.callback_with_different_current_allocator(CurrentAllocatorInUse::Global, callback)
    }

    /// The coroutine local allocator, if any.
    fn coroutine_local_allocator(&self) -> (allocator: Option<&Self::CoroutineLocalAllocator>)
        ensures
            allocator is Some <==> self.coroutine_local() is Some,
            allocator is Some ==> *allocator->0 == self.coroutine_local()->0,
    ;

    /// The coroutine local allocator, which must have been assigned.
    fn coroutine_local_allocator_unchecked(&self) -> (allocator: &Self::CoroutineLocalAllocator)
        requires
            self.coroutine_local() is Some,
        ensures
            *allocator == self.coroutine_local()->0,
    {
        self.coroutine_local_allocator().unwrap()
    }

    /// The thread local allocator, if any.
    fn thread_local_allocator(&self) -> (allocator: Option<&Self::ThreadLocalAllocator>)
        ensures
            allocator is Some <==> self.thread_local() is Some,
            allocator is Some ==> *allocator->0 == self.thread_local()->0,
    ;

    /// The thread local allocator, which must have been initialized.
    fn thread_local_allocator_unchecked(&self) -> (allocator: &Self::ThreadLocalAllocator)
        requires
            self.thread_local() is Some,
        ensures
            *allocator == self.thread_local()->0,
    {
        self.thread_local_allocator().unwrap()
    }

    /// The global allocator.
    fn global_allocator(&self) -> (allocator: &Self::GlobalAllocator)
        ensures
            *allocator == self.global(),
    ;
}

/// The switchable allocator: a global allocator and the per-thread state.
pub struct GlobalThreadAndCoroutineSwitchableAllocatorInstance<CoroutineLocalAllocator: LocalAllocator, ThreadLocalAllocator: LocalAllocator, GlobalAllocator: Allocator> {
    global_allocator: GlobalAllocator,
    per_thread_state: PerThreadState<CoroutineLocalAllocator, ThreadLocalAllocator>,
}

impl<CoroutineLocalAllocator: LocalAllocator, ThreadLocalAllocator: LocalAllocator, GlobalAllocator: Allocator> GlobalThreadAndCoroutineSwitchableAllocatorInstance<CoroutineLocalAllocator, ThreadLocalAllocator, GlobalAllocator> {
    /// A switchable allocator over `global_allocator`, with `per_thread_state` for the thread
    /// that uses it.
    pub fn new(global_allocator: GlobalAllocator, per_thread_state: PerThreadState<CoroutineLocalAllocator, ThreadLocalAllocator>) -> (allocator: Self)
        ensures
            allocator.global_state() == global_allocator,
            allocator.in_use_state() == per_thread_state.current_allocator_in_use,
            allocator.coroutine_local_state() == per_thread_state.coroutine_local_allocator,
            allocator.thread_local_state() == per_thread_state.thread_local_allocator,
    {
        GlobalThreadAndCoroutineSwitchableAllocatorInstance { global_allocator, per_thread_state }
    }

    /// The allocator in use for new allocations.
    pub closed spec fn in_use_state(&self) -> CurrentAllocatorInUse {
        self.per_thread_state.current_allocator_in_use
    }

    /// The coroutine local allocator, if any.
    pub closed spec fn coroutine_local_state(&self) -> Option<CoroutineLocalAllocator> {
        self.per_thread_state.coroutine_local_allocator
    }

    /// The thread local allocator, if any.
    pub closed spec fn thread_local_state(&self) -> Option<ThreadLocalAllocator> {
        self.per_thread_state.thread_local_allocator
    }

    /// The global allocator.
    pub closed spec fn global_state(&self) -> GlobalAllocator {
        self.global_allocator
    }

    /// Is the memory at `current_memory` the coroutine local allocator's?
    pub open spec fn uses_coroutine_local(&self, current_memory: usize) -> bool {
        self.coroutine_local_state() matches Some(allocator) && allocator.range().includes(current_memory as int)
    }

    /// Is the memory at `current_memory` the thread local allocator's (and not the coroutine
    /// local one's)?
    pub open spec fn uses_thread_local(&self, current_memory: usize) -> bool {
        &&& !self.uses_coroutine_local(current_memory)
        &&& self.thread_local_state() matches Some(allocator)
        &&& allocator.range().includes(current_memory as int)
    }

    /// Does the local allocator, if any, that holds `current_memory` hold it?
    fn coroutine_local_contains(&self, current_memory: usize) -> (contained: bool)
        requires
            self.valid(),
        ensures
            contained == self.uses_coroutine_local(current_memory),
    {
        match &self.per_thread_state.coroutine_local_allocator {
            Some(allocator) => allocator.contains(current_memory),
            None => false,
        }
    }

    /// Does the thread local allocator, if any, hold `current_memory`?
    fn thread_local_contains(&self, current_memory: usize) -> (contained: bool)
        requires
            self.valid(),
        ensures
            contained == (self.thread_local_state() is Some && self.thread_local_state()->0.range().includes(current_memory as int)),
    {
        match &self.per_thread_state.thread_local_allocator {
            Some(allocator) => allocator.contains(current_memory),
            None => false,
        }
    }
}

impl<CoroutineLocalAllocator: LocalAllocator, ThreadLocalAllocator: LocalAllocator, GlobalAllocator: Allocator> Allocator for GlobalThreadAndCoroutineSwitchableAllocatorInstance<CoroutineLocalAllocator, ThreadLocalAllocator, GlobalAllocator> {
    open spec fn valid(&self) -> bool {
        &&& self.global_state().valid()
        &&& self.coroutine_local_state() matches Some(allocator) ==> allocator.valid()
        &&& self.thread_local_state() matches Some(allocator) ==> allocator.valid()
    }

    open spec fn accepts(&self, non_zero_size: usize, non_zero_power_of_two_alignment: usize) -> bool {
        match self.in_use_state() {
            CurrentAllocatorInUse::CoroutineLocal => self.coroutine_local_state() matches Some(allocator)
                && allocator.accepts(non_zero_size, non_zero_power_of_two_alignment),
            CurrentAllocatorInUse::ThreadLocal => self.thread_local_state() matches Some(allocator)
                && allocator.accepts(non_zero_size, non_zero_power_of_two_alignment),
            CurrentAllocatorInUse::Global => self.global_state().accepts(non_zero_size, non_zero_power_of_two_alignment),
        }
    }

    open spec fn accepts_growth(&self, non_zero_new_size: usize, non_zero_power_of_two_alignment: usize, current_memory: usize) -> bool {
        if self.uses_coroutine_local(current_memory) {
            self.coroutine_local_state()->0.accepts_growth(non_zero_new_size, non_zero_power_of_two_alignment, current_memory)
        } else if self.uses_thread_local(current_memory) {
            self.thread_local_state()->0.accepts_growth(non_zero_new_size, non_zero_power_of_two_alignment, current_memory)
        } else {
            self.global_state().accepts_growth(non_zero_new_size, non_zero_power_of_two_alignment, current_memory)
        }
    }

    open spec fn holds(&self, non_zero_size: usize, non_zero_power_of_two_alignment: usize, current_memory: usize) -> bool {
        if self.uses_coroutine_local(current_memory) {
            self.coroutine_local_state()->0.holds(non_zero_size, non_zero_power_of_two_alignment, current_memory)
        } else if self.uses_thread_local(current_memory) {
            self.thread_local_state()->0.holds(non_zero_size, non_zero_power_of_two_alignment, current_memory)
        } else {
            self.global_state().holds(non_zero_size, non_zero_power_of_two_alignment, current_memory)
        }
    }

    fn takes(&self, non_zero_size: usize, non_zero_power_of_two_alignment: usize) -> (taken: bool) {
        match self.per_thread_state.current_allocator_in_use {
            CurrentAllocatorInUse::CoroutineLocal => match &self.per_thread_state.coroutine_local_allocator {
                Some(allocator) => allocator.takes(non_zero_size, non_zero_power_of_two_alignment),
                None => false,
            },
            CurrentAllocatorInUse::ThreadLocal => match &self.per_thread_state.thread_local_allocator {
                Some(allocator) => allocator.takes(non_zero_size, non_zero_power_of_two_alignment),
                None => false,
            },
            CurrentAllocatorInUse::Global => self.global_allocator.takes(non_zero_size, non_zero_power_of_two_alignment),
        }
    }

    fn takes_growth(&self, non_zero_new_size: usize, non_zero_power_of_two_alignment: usize, current_memory: usize) -> (taken: bool) {
        if self.coroutine_local_contains(current_memory) {
            match &self.per_thread_state.coroutine_local_allocator {
                Some(allocator) => allocator.takes_growth(non_zero_new_size, non_zero_power_of_two_alignment, current_memory),
                None => false,
            }
        } else if self.thread_local_contains(current_memory) {
            match &self.per_thread_state.thread_local_allocator {
                Some(allocator) => allocator.takes_growth(non_zero_new_size, non_zero_power_of_two_alignment, current_memory),
                None => false,
            }
        } else {
            self.global_allocator.takes_growth(non_zero_new_size, non_zero_power_of_two_alignment, current_memory)
        }
    }

    /// What allocating gives: what the allocator in use gives, the others unchanged.
    open spec fn allocate_outcome(&self, after: &Self, non_zero_size: usize, non_zero_power_of_two_alignment: usize, result: Result<(usize, usize), AllocError>) -> bool {
        &&& after.in_use_state() == self.in_use_state()
        &&& match self.in_use_state() {
            CurrentAllocatorInUse::CoroutineLocal => {
                &&& self.coroutine_local_state() matches Some(before)
                &&& after.coroutine_local_state() matches Some(now)
                &&& before.allocate_outcome(&now, non_zero_size, non_zero_power_of_two_alignment, result)
                &&& after.thread_local_state() == self.thread_local_state()
                &&& after.global_state() == self.global_state()
            },
            CurrentAllocatorInUse::ThreadLocal => {
                &&& self.thread_local_state() matches Some(before)
                &&& after.thread_local_state() matches Some(now)
                &&& before.allocate_outcome(&now, non_zero_size, non_zero_power_of_two_alignment, result)
                &&& after.coroutine_local_state() == self.coroutine_local_state()
                &&& after.global_state() == self.global_state()
            },
            CurrentAllocatorInUse::Global => {
                &&& self.global_state().allocate_outcome(&after.global_state(), non_zero_size, non_zero_power_of_two_alignment, result)
                &&& after.coroutine_local_state() == self.coroutine_local_state()
                &&& after.thread_local_state() == self.thread_local_state()
            },
        }
    }

    /// What taking back an allocation gives: what the allocator that holds it gives, the others
    /// unchanged.
    open spec fn deallocate_outcome(&self, after: &Self, non_zero_size: usize, non_zero_power_of_two_alignment: usize, current_memory: usize) -> bool {
        &&& after.in_use_state() == self.in_use_state()
        &&& if self.uses_coroutine_local(current_memory) {
            &&& self.coroutine_local_state() matches Some(before)
            &&& after.coroutine_local_state() matches Some(now)
            &&& before.deallocate_outcome(&now, non_zero_size, non_zero_power_of_two_alignment, current_memory)
            &&& after.thread_local_state() == self.thread_local_state()
            &&& after.global_state() == self.global_state()
        } else if self.uses_thread_local(current_memory) {
            &&& self.thread_local_state() matches Some(before)
            &&& after.thread_local_state() matches Some(now)
            &&& before.deallocate_outcome(&now, non_zero_size, non_zero_power_of_two_alignment, current_memory)
            &&& after.coroutine_local_state() == self.coroutine_local_state()
            &&& after.global_state() == self.global_state()
        } else {
            &&& self.global_state().deallocate_outcome(&after.global_state(), non_zero_size, non_zero_power_of_two_alignment, current_memory)
            &&& after.coroutine_local_state() == self.coroutine_local_state()
            &&& after.thread_local_state() == self.thread_local_state()
        }
    }

    /// What growing an allocation gives: what the allocator that holds it gives, the others
    /// unchanged.
    open spec fn grow_outcome(&self, after: &Self, non_zero_new_size: usize, non_zero_power_of_two_alignment: usize, non_zero_current_size: usize, current_memory: usize, result: Result<(usize, usize), AllocError>) -> bool {
        &&& after.in_use_state() == self.in_use_state()
        &&& if self.uses_coroutine_local(current_memory) {
            &&& self.coroutine_local_state() matches Some(before)
            &&& after.coroutine_local_state() matches Some(now)
            &&& before.grow_outcome(&now, non_zero_new_size, non_zero_power_of_two_alignment, non_zero_current_size, current_memory, result)
            &&& after.thread_local_state() == self.thread_local_state()
            &&& after.global_state() == self.global_state()
        } else if self.uses_thread_local(current_memory) {
            &&& self.thread_local_state() matches Some(before)
            &&& after.thread_local_state() matches Some(now)
            &&& before.grow_outcome(&now, non_zero_new_size, non_zero_power_of_two_alignment, non_zero_current_size, current_memory, result)
            &&& after.coroutine_local_state() == self.coroutine_local_state()
            &&& after.global_state() == self.global_state()
        } else {
            &&& self.global_state().grow_outcome(&after.global_state(), non_zero_new_size, non_zero_power_of_two_alignment, non_zero_current_size, current_memory, result)
            &&& after.coroutine_local_state() == self.coroutine_local_state()
            &&& after.thread_local_state() == self.thread_local_state()
        }
    }

    /// What shrinking an allocation gives: what the allocator that holds it gives, the others
    /// unchanged.
    open spec fn shrink_outcome(&self, after: &Self, non_zero_new_size: usize, non_zero_power_of_two_alignment: usize, non_zero_current_size: usize, current_memory: usize, result: Result<(usize, usize), AllocError>) -> bool {
        &&& after.in_use_state() == self.in_use_state()
        &&& if self.uses_coroutine_local(current_memory) {
            &&& self.coroutine_local_state() matches Some(before)
            &&& after.coroutine_local_state() matches Some(now)
            &&& before.shrink_outcome(&now, non_zero_new_size, non_zero_power_of_two_alignment, non_zero_current_size, current_memory, result)
            &&& after.thread_local_state() == self.thread_local_state()
            &&& after.global_state() == self.global_state()
        } else if self.uses_thread_local(current_memory) {
            &&& self.thread_local_state() matches Some(before)
            &&& after.thread_local_state() matches Some(now)
            &&& before.shrink_outcome(&now, non_zero_new_size, non_zero_power_of_two_alignment, non_zero_current_size, current_memory, result)
            &&& after.coroutine_local_state() == self.coroutine_local_state()
            &&& after.global_state() == self.global_state()
        } else {
            &&& self.global_state().shrink_outcome(&after.global_state(), non_zero_new_size, non_zero_power_of_two_alignment, non_zero_current_size, current_memory, result)
            &&& after.coroutine_local_state() == self.coroutine_local_state()
            &&& after.thread_local_state() == self.thread_local_state()
        }
    }

    fn allocate(&mut self, non_zero_size: usize, non_zero_power_of_two_alignment: usize) -> (result: Result<(usize, usize), AllocError>)
        ensures
            final(self).in_use_state() == old(self).in_use_state(),
            old(self).in_use_state() != CurrentAllocatorInUse::CoroutineLocal ==> final(self).coroutine_local_state() == old(self).coroutine_local_state(),
            old(self).in_use_state() != CurrentAllocatorInUse::ThreadLocal ==> final(self).thread_local_state() == old(self).thread_local_state(),
            old(self).in_use_state() != CurrentAllocatorInUse::Global ==> final(self).global_state() == old(self).global_state(),
            final(self).coroutine_local_state() is Some == old(self).coroutine_local_state() is Some,
            final(self).thread_local_state() is Some == old(self).thread_local_state() is Some,
    {
        match self.per_thread_state.current_allocator_in_use {
            CurrentAllocatorInUse::CoroutineLocal => {
                let mut allocator = self.per_thread_state.coroutine_local_allocator.take().expect("Should have assigned a coroutine local allocator");
                let result = allocator.allocate(non_zero_size, non_zero_power_of_two_alignment);
                self.per_thread_state.coroutine_local_allocator = Some(allocator);
                proof {
                    assert(old(self).allocate_outcome(self, non_zero_size, non_zero_power_of_two_alignment, result));
                }
                result
            },
            CurrentAllocatorInUse::ThreadLocal => {
                let mut allocator = self.per_thread_state.thread_local_allocator.take().expect("Should have assigned a thread local allocator");
                let result = allocator.allocate(non_zero_size, non_zero_power_of_two_alignment);
                self.per_thread_state.thread_local_allocator = Some(allocator);
                proof {
                    assert(old(self).allocate_outcome(self, non_zero_size, non_zero_power_of_two_alignment, result));
                }
                result
            },
            CurrentAllocatorInUse::Global => {
                let result = self.global_allocator.allocate(non_zero_size, non_zero_power_of_two_alignment);
                proof {
                    assert(old(self).allocate_outcome(self, non_zero_size, non_zero_power_of_two_alignment, result));
                }
                result
            },
        }
    }

    fn deallocate(&mut self, non_zero_size: usize, non_zero_power_of_two_alignment: usize, current_memory: usize)
        ensures
            final(self).in_use_state() == old(self).in_use_state(),
            !old(self).uses_coroutine_local(current_memory) ==> final(self).coroutine_local_state() == old(self).coroutine_local_state(),
            !old(self).uses_thread_local(current_memory) ==> final(self).thread_local_state() == old(self).thread_local_state(),
            old(self).uses_coroutine_local(current_memory) || old(self).uses_thread_local(current_memory)
                ==> final(self).global_state() == old(self).global_state(),
            final(self).coroutine_local_state() is Some == old(self).coroutine_local_state() is Some,
            final(self).thread_local_state() is Some == old(self).thread_local_state() is Some,
    {
        if self.coroutine_local_contains(current_memory) {
            let mut allocator = self.per_thread_state.coroutine_local_allocator.take().unwrap();
            allocator.deallocate(non_zero_size, non_zero_power_of_two_alignment, current_memory);
            self.per_thread_state.coroutine_local_allocator = Some(allocator);
            proof {
                assert(old(self).deallocate_outcome(self, non_zero_size, non_zero_power_of_two_alignment, current_memory));
            }
            return;
        }
        if self.thread_local_contains(current_memory) {
            let mut allocator = self.per_thread_state.thread_local_allocator.take().unwrap();
            allocator.deallocate(non_zero_size, non_zero_power_of_two_alignment, current_memory);
            self.per_thread_state.thread_local_allocator = Some(allocator);
            proof {
                assert(old(self).deallocate_outcome(self, non_zero_size, non_zero_power_of_two_alignment, current_memory));
            }
            return;
        }
        self.global_allocator.deallocate(non_zero_size, non_zero_power_of_two_alignment, current_memory);
        proof {
            assert(old(self).deallocate_outcome(self, non_zero_size, non_zero_power_of_two_alignment, current_memory));
        }
    }

    fn growing_reallocate(&mut self, non_zero_new_size: usize, non_zero_power_of_two_alignment: usize, non_zero_current_size: usize, current_memory: usize) -> (result: Result<(usize, usize), AllocError>)
        ensures
            final(self).in_use_state() == old(self).in_use_state(),
            !old(self).uses_coroutine_local(current_memory) ==> final(self).coroutine_local_state() == old(self).coroutine_local_state(),
            !old(self).uses_thread_local(current_memory) ==> final(self).thread_local_state() == old(self).thread_local_state(),
            old(self).uses_coroutine_local(current_memory) || old(self).uses_thread_local(current_memory)
                ==> final(self).global_state() == old(self).global_state(),
            final(self).coroutine_local_state() is Some == old(self).coroutine_local_state() is Some,
            final(self).thread_local_state() is Some == old(self).thread_local_state() is Some,
    {
        if self.coroutine_local_contains(current_memory) {
            let mut allocator = self.per_thread_state.coroutine_local_allocator.take().unwrap();
            let result = allocator.growing_reallocate(non_zero_new_size, non_zero_power_of_two_alignment, non_zero_current_size, current_memory);
            self.per_thread_state.coroutine_local_allocator = Some(allocator);
            proof {
                assert(old(self).grow_outcome(self, non_zero_new_size, non_zero_power_of_two_alignment, non_zero_current_size, current_memory, result));
            }
            return result;
        }
        if self.thread_local_contains(current_memory) {
            let mut allocator = self.per_thread_state.thread_local_allocator.take().unwrap();
            let result = allocator.growing_reallocate(non_zero_new_size, non_zero_power_of_two_alignment, non_zero_current_size, current_memory);
            self.per_thread_state.thread_local_allocator = Some(allocator);
            proof {
                assert(old(self).grow_outcome(self, non_zero_new_size, non_zero_power_of_two_alignment, non_zero_current_size, current_memory, result));
            }
            return result;
        }
        let result = self.global_allocator.growing_reallocate(non_zero_new_size, non_zero_power_of_two_alignment, non_zero_current_size, current_memory);
        proof {
            assert(old(self).grow_outcome(self, non_zero_new_size, non_zero_power_of_two_alignment, non_zero_current_size, current_memory, result));
        }
        result
    }

    fn shrinking_reallocate(&mut self, non_zero_new_size: usize, non_zero_power_of_two_alignment: usize, non_zero_current_size: usize, current_memory: usize) -> (result: Result<(usize, usize), AllocError>)
        ensures
            final(self).in_use_state() == old(self).in_use_state(),
            !old(self).uses_coroutine_local(current_memory) ==> final(self).coroutine_local_state() == old(self).coroutine_local_state(),
            !old(self).uses_thread_local(current_memory) ==> final(self).thread_local_state() == old(self).thread_local_state(),
            old(self).uses_coroutine_local(current_memory) || old(self).uses_thread_local(current_memory)
                ==> final(self).global_state() == old(self).global_state(),
            final(self).coroutine_local_state() is Some == old(self).coroutine_local_state() is Some,
            final(self).thread_local_state() is Some == old(self).thread_local_state() is Some,
    {
        if self.coroutine_local_contains(current_memory) {
            let mut allocator = self.per_thread_state.coroutine_local_allocator.take().unwrap();
            let result = allocator.shrinking_reallocate(non_zero_new_size, non_zero_power_of_two_alignment, non_zero_current_size, current_memory);
            self.per_thread_state.coroutine_local_allocator = Some(allocator);
            proof {
                assert(old(self).shrink_outcome(self, non_zero_new_size, non_zero_power_of_two_alignment, non_zero_current_size, current_memory, result));
            }
            return result;
        }
        if self.thread_local_contains(current_memory) {
            let mut allocator = self.per_thread_state.thread_local_allocator.take().unwrap();
            let result = allocator.shrinking_reallocate(non_zero_new_size, non_zero_power_of_two_alignment, non_zero_current_size, current_memory);
            self.per_thread_state.thread_local_allocator = Some(allocator);
            proof {
                assert(old(self).shrink_outcome(self, non_zero_new_size, non_zero_power_of_two_alignment, non_zero_current_size, current_memory, result));
            }
            return result;
        }
        let result = self.global_allocator.shrinking_reallocate(non_zero_new_size, non_zero_power_of_two_alignment, non_zero_current_size, current_memory);
        proof {
            assert(old(self).shrink_outcome(self, non_zero_new_size, non_zero_power_of_two_alignment, non_zero_current_size, current_memory, result));
        }
        result
    }
}

impl<CoroutineLocalAllocator: LocalAllocator, ThreadLocalAllocator: LocalAllocator, GlobalAllocator: Allocator> GlobalThreadAndCoroutineSwitchableAllocator for GlobalThreadAndCoroutineSwitchableAllocatorInstance<CoroutineLocalAllocator, ThreadLocalAllocator, GlobalAllocator> {
    type CoroutineLocalAllocator = CoroutineLocalAllocator;

    type ThreadLocalAllocator = ThreadLocalAllocator;

    type GlobalAllocator = GlobalAllocator;

    open spec fn current_in_use(&self) -> CurrentAllocatorInUse {
        self.in_use_state()
    }

    open spec fn coroutine_local(&self) -> Option<CoroutineLocalAllocator> {
        self.coroutine_local_state()
    }

    open spec fn thread_local(&self) -> Option<ThreadLocalAllocator> {
        self.thread_local_state()
    }

    open spec fn global(&self) -> GlobalAllocator {
        self.global_state()
    }

    fn replace_coroutine_local_allocator(&mut self, replacement: Option<CoroutineLocalAllocator>) -> (replaced: Option<CoroutineLocalAllocator>) {
        let replaced = self.per_thread_state.coroutine_local_allocator.take();
        self.per_thread_state.coroutine_local_allocator = replacement;
        replaced
    }

    fn initialize_thread_local_allocator(&mut self, thread_local_allocator: ThreadLocalAllocator) {
        self.per_thread_state.thread_local_allocator = Some(thread_local_allocator);
    }

    fn drop_thread_local_allocator(&mut self) {
        self.per_thread_state.thread_local_allocator = None;
    }

    fn save_current_allocator_in_use(&self) -> (current: CurrentAllocatorInUse) {
        self.per_thread_state.current_allocator_in_use
    }

    fn restore_current_allocator_in_use(&mut self, restore_to: CurrentAllocatorInUse) {
        self.per_thread_state.current_allocator_in_use = restore_to;
    }

    fn coroutine_local_allocator(&self) -> (allocator: Option<&CoroutineLocalAllocator>) {
        self.per_thread_state.coroutine_local_allocator.as_ref()
    }

    fn thread_local_allocator(&self) -> (allocator: Option<&ThreadLocalAllocator>) {
        self.per_thread_state.thread_local_allocator.as_ref()
    }

    fn global_allocator(&self) -> (allocator: &GlobalAllocator) {
        &self.global_allocator
    }
}

} // verus!
