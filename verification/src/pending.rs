//! The decoded source that waits for the next source creation of a thread.
use vstd::multiset::*;
use vstd::prelude::*;

verus! {

/// A decoded source that was handed in for the next source creation.
#[derive(Clone, Copy, Debug, PartialEq, Eq, Structural)]
pub struct PendingSourceFd {
    pub fd: i32,
    pub sample_rate: u32,
    pub channel_count: u32,
}

/// Whether a slot holds a proper source, or none.
pub open spec fn is_sound_slot(slot: Option<PendingSourceFd>) -> bool {
    slot matches Some(p) ==> p.fd >= 0 && p.sample_rate > 0 && p.channel_count > 0
}

/// What became of the descriptors when a source was handed in.
#[derive(Clone, Copy, Debug, PartialEq, Eq, Structural)]
pub struct PendingChange {
    /// Whether the source is waiting now.
    pub stored: bool,
    /// The descriptor that was waiting before; it has to be closed.
    pub released: Option<i32>,
    /// The descriptor that was handed in for nothing; it has to be closed.
    pub refused: Option<i32>,
}

/// The descriptor that a slot holds.
pub open spec fn held(slot: Option<PendingSourceFd>) -> Option<i32> {
    match slot {
        Some(p) => Some(p.fd),
        None => None,
    }
}

/// The slot after it is emptied, and the descriptor that has to be closed.
pub open spec fn cleared(slot: Option<PendingSourceFd>) -> (Option<PendingSourceFd>, Option<i32>) {
    (None, held(slot))
}

/// Whether a source may wait: it has a descriptor, a sample rate and channels.
pub open spec fn is_storable(fd: i32, sample_rate: u32, channel_count: u32) -> bool {
    fd >= 0 && sample_rate > 0 && channel_count > 0
}

/// The slot after a source is handed in, and what became of the descriptors. A source that may
/// not wait is refused, and then none waits.
pub open spec fn after_set(
    slot: Option<PendingSourceFd>,
    fd: i32,
    sample_rate: u32,
    channel_count: u32,
) -> (Option<PendingSourceFd>, PendingChange) {
    if is_storable(fd, sample_rate, channel_count) {
        (
            Some(PendingSourceFd { fd, sample_rate, channel_count }),
            PendingChange { stored: true, released: held(slot), refused: None },
        )
    } else {
        (
            None,
            PendingChange {
                stored: false,
                released: held(slot),
                refused: if fd >= 0 {
                    Some(fd)
                } else {
                    None
                },
            },
        )
    }
}

/// Empties the slot and returns the descriptor that has to be closed.
pub fn clear_pending_source_fd_inner(slot: &mut Option<PendingSourceFd>) -> (r: Option<i32>)
    ensures
        (*final(slot), r) == cleared(*old(slot)),
{
    match take_pending_source_fd(slot) {
        Some(p) => Some(p.fd),
        None => None,
    }
}

/// Empties the slot and hands out what it held.
pub fn take_pending_source_fd(slot: &mut Option<PendingSourceFd>) -> (r: Option<PendingSourceFd>)
    ensures
        *final(slot) == None::<PendingSourceFd>,
        r == *old(slot),
{
    let pending = *slot;
    *slot = None;
    pending
}

/// Lets a decoded source wait for the next source creation, in place of any that waits.
pub fn mic_spoofing_set_pending_source_fd(
    slot: &mut Option<PendingSourceFd>,
    fd: i32,
    source_sample_rate: u32,
    source_channel_count: u32,
) -> (r: PendingChange)
    ensures
        (*final(slot), r) == after_set(*old(slot), fd, source_sample_rate, source_channel_count),
        is_sound_slot(*final(slot)),
{
    let released = clear_pending_source_fd_inner(slot);
    if fd < 0 || source_sample_rate == 0 || source_channel_count == 0 {
        let refused = if fd >= 0 {
            Some(fd)
        } else {
            None
        };
        return PendingChange { stored: false, released, refused };
    }
    *slot = Some(
        PendingSourceFd {
            fd,
            sample_rate: source_sample_rate,
            channel_count: source_channel_count,
        },
    );
    PendingChange { stored: true, released, refused: None }
}

/// Empties the slot and returns the descriptor that has to be closed.
pub fn mic_spoofing_clear_pending_source_fd(slot: &mut Option<PendingSourceFd>) -> (r: Option<i32>)
    ensures
        (*final(slot), r) == cleared(*old(slot)),
{
    clear_pending_source_fd_inner(slot)
}

/// The descriptor, if there is one.
pub open spec fn bag(fd: Option<i32>) -> Multiset<i32> {
    match fd {
        Some(fd) => Multiset::singleton(fd),
        None => Multiset::empty(),
    }
}

/// Handing in a source neither loses nor invents a descriptor: the one that waited and the one
/// handed in are the one that waits now and those that have to be closed.
pub proof fn lemma_descriptors_kept(
    slot: Option<PendingSourceFd>,
    fd: i32,
    sample_rate: u32,
    channel_count: u32,
)
    requires
        fd >= 0,
    ensures
        ({
            let (after, change) = after_set(slot, fd, sample_rate, channel_count);
            bag(held(slot)).add(bag(Some(fd))) == bag(held(after)).add(bag(change.released)).add(
                bag(change.refused),
            )
        }),
{
    let (after, change) = after_set(slot, fd, sample_rate, channel_count);
    assert(bag(held(slot)).add(bag(Some(fd))) =~= bag(held(after)).add(bag(change.released)).add(
        bag(change.refused),
    ));
}

/// Emptying the slot a second time finds nothing to close.
pub proof fn lemma_clear_is_idempotent(slot: Option<PendingSourceFd>)
    ensures
        cleared(cleared(slot).0) == (None::<PendingSourceFd>, None::<i32>),
{
}

/// A source that is handed in waits just where it has a descriptor, a sample rate and channels,
/// and what waits is that source. Otherwise none waits, and its descriptor, if it is one, has to
/// be closed. The one that waited before has to be closed either way.
pub proof fn lemma_handed_in_source_waits(
    slot: Option<PendingSourceFd>,
    fd: i32,
    sample_rate: u32,
    channel_count: u32,
)
    ensures
        ({
            let (after, change) = after_set(slot, fd, sample_rate, channel_count);
            let proper = fd >= 0 && sample_rate > 0 && channel_count > 0;
            &&& after is Some <==> proper
            &&& after matches Some(p) ==> p.fd == fd && p.sample_rate == sample_rate
                && p.channel_count == channel_count
            &&& change.stored == proper
            &&& change.refused is Some <==> fd >= 0 && !proper
            &&& change.refused matches Some(refused) ==> refused == fd
            &&& change.released is Some <==> slot is Some
            &&& change.released matches Some(released) ==> (slot matches Some(p) && p.fd
                == released)
        }),
{
}

/// Emptying the slot leaves nothing, and gives the descriptor that waited, if one did.
pub proof fn lemma_cleared_slot_is_empty(slot: Option<PendingSourceFd>)
    ensures
        cleared(slot).0 is None,
        cleared(slot).1 is Some <==> slot is Some,
        slot matches Some(p) ==> cleared(slot).1 == Some(p.fd),
{
}

} // verus!
