use context_allocator::allocator::{AllocError, Allocator};
use context_allocator::global::{
    CurrentAllocatorInUse, GlobalThreadAndCoroutineSwitchableAllocator,
    GlobalThreadAndCoroutineSwitchableAllocatorInstance, LifetimeHint, PerThreadState,
};
use context_allocator::memory_source::MemorySource;
use context_allocator::multiple_binary_search_tree_allocator::MultipleBinarySearchTreeAllocator;

const GLOBAL: usize = 0x10_0000;
const COROUTINE: usize = 0x20_0000;
const THREAD: usize = 0x30_0000;

#[derive(Debug)]
struct FixedMemorySource {
    address: usize,
}

impl MemorySource for FixedMemorySource {
    fn can_obtain(&self, _non_zero_size: usize) -> bool {
        true
    }

    fn can_release(&self, _non_zero_size: usize, _current_memory: usize) -> bool {
        true
    }

    fn obtain_outcome(&self, _after: &Self, _non_zero_size: usize, _obtained: Result<usize, AllocError>) -> bool {
        true
    }

    fn release_outcome(&self, _after: &Self, _non_zero_size: usize, _current_memory: usize) -> bool {
        true
    }

    fn obtain(&mut self, _non_zero_size: usize) -> Result<usize, AllocError> {
        Ok(self.address)
    }

    fn release(&mut self, _non_zero_size: usize, _current_memory: usize) {}
}

type Local = MultipleBinarySearchTreeAllocator<FixedMemorySource>;

fn local(address: usize) -> Local {
    MultipleBinarySearchTreeAllocator::new(FixedMemorySource { address }, 64).unwrap()
}

fn switchable() -> GlobalThreadAndCoroutineSwitchableAllocatorInstance<Local, Local, Local> {
    GlobalThreadAndCoroutineSwitchableAllocatorInstance::new(local(GLOBAL), PerThreadState::empty())
}

#[test]
fn switchable_allocator_starts_with_the_global_allocator_in_use() {
    let mut allocator = switchable();
    assert_eq!(allocator.save_current_allocator_in_use(), CurrentAllocatorInUse::Global);
    assert!(allocator.coroutine_local_allocator().is_none());
    assert!(allocator.thread_local_allocator().is_none());
    assert_eq!(Allocator::allocate(&mut allocator, 32, 8), Ok((GLOBAL, 32)));
}

#[test]
fn switchable_allocator_allocates_from_the_allocator_in_use() {
    let mut allocator = switchable();
    assert_eq!(allocator.replace_coroutine_local_allocator(Some(local(COROUTINE))).is_none(), true);
    allocator.initialize_thread_local_allocator(local(THREAD));
    assert_eq!(allocator.replace_current_allocator_in_use(CurrentAllocatorInUse::CoroutineLocal), CurrentAllocatorInUse::Global);
    assert_eq!(Allocator::allocate(&mut allocator, 64, 8), Ok((COROUTINE, 64)));
    allocator.restore_current_allocator_in_use(CurrentAllocatorInUse::ThreadLocal);
    assert_eq!(Allocator::allocate(&mut allocator, 64, 8), Ok((THREAD, 64)));
    allocator.restore_current_allocator_in_use(CurrentAllocatorInUse::Global);
    assert_eq!(Allocator::allocate(&mut allocator, 64, 8), Ok((GLOBAL, 64)));
}

#[test]
fn switchable_allocator_gives_memory_back_to_the_allocator_that_holds_it() {
    let mut allocator = switchable();
    allocator.replace_coroutine_local_allocator(Some(local(COROUTINE)));
    allocator.restore_current_allocator_in_use(CurrentAllocatorInUse::CoroutineLocal);
    let (coroutine_memory, _) = Allocator::allocate(&mut allocator, 64, 8).unwrap();
    assert_eq!(Allocator::allocate(&mut allocator, 64, 8), Err(AllocError));
    allocator.restore_current_allocator_in_use(CurrentAllocatorInUse::Global);
    Allocator::deallocate(&mut allocator, 64, 8, coroutine_memory);
    allocator.restore_current_allocator_in_use(CurrentAllocatorInUse::CoroutineLocal);
    assert_eq!(Allocator::allocate(&mut allocator, 64, 8), Ok((COROUTINE, 64)));
}

#[test]
fn switchable_allocator_hands_back_the_replaced_coroutine_allocator() {
    let mut allocator = switchable();
    allocator.replace_coroutine_local_allocator(Some(local(COROUTINE)));
    let replaced = allocator.replace_coroutine_local_allocator(None).expect("Had a coroutine local allocator");
    assert!(allocator.coroutine_local_allocator().is_none());
    let range = context_allocator::local_allocator::LocalAllocator::memory_range(&replaced);
    assert_eq!(range.from, COROUTINE);
}

#[test]
fn switchable_allocator_thread_local_allocator_can_be_dropped() {
    let mut allocator = switchable();
    allocator.initialize_thread_local_allocator(local(THREAD));
    assert!(allocator.thread_local_allocator().is_some());
    allocator.drop_thread_local_allocator();
    assert!(allocator.thread_local_allocator().is_none());
}

#[test]
fn per_thread_state_starts_empty() {
    let state: PerThreadState<Local, Local> = PerThreadState::empty();
    assert_eq!(state.current_allocator_in_use, CurrentAllocatorInUse::Global);
    assert!(state.coroutine_local_allocator.is_none());
    assert!(state.thread_local_allocator.is_none());
    assert_ne!(LifetimeHint::ShortLived, LifetimeHint::LongLived);
}

#[test]
fn switchable_allocator_callback_runs_with_the_chosen_allocator_and_switches_back() {
    let mut allocator = switchable();
    allocator.replace_coroutine_local_allocator(Some(local(COROUTINE)));
    let allocated = allocator.callback_with_coroutine_local_allocator(|allocator| Allocator::allocate(allocator, 64, 8));
    assert_eq!(allocated, Ok((COROUTINE, 64)));
    assert_eq!(allocator.save_current_allocator_in_use(), CurrentAllocatorInUse::Global);
    allocator.restore_current_allocator_in_use(CurrentAllocatorInUse::ThreadLocal);
    let allocated = allocator.callback_with_global_allocator(|allocator| Allocator::allocate(allocator, 64, 8));
    assert_eq!(allocated, Ok((GLOBAL, 64)));
    assert_eq!(allocator.save_current_allocator_in_use(), CurrentAllocatorInUse::ThreadLocal);
}
