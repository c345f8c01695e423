use micspoofing::pending::{
    clear_pending_source_fd_inner, mic_spoofing_clear_pending_source_fd,
    mic_spoofing_set_pending_source_fd, take_pending_source_fd, PendingSourceFd,
};

/// The descriptors that are open, in a test.
struct Descriptors {
    open: Vec<i32>,
}

impl Descriptors {
    fn new() -> Descriptors {
        Descriptors { open: Vec::new() }
    }

    fn open(&mut self, fd: i32) -> i32 {
        assert!(!self.open.contains(&fd));
        self.open.push(fd);
        fd
    }

    fn close(&mut self, fd: Option<i32>) {
        if let Some(fd) = fd {
            assert!(self.open.contains(&fd), "descriptor {fd} is not open");
            self.open.retain(|other| *other != fd);
        }
    }

    fn is_open(&self, fd: i32) -> bool {
        self.open.contains(&fd)
    }
}

fn set(fds: &mut Descriptors, slot: &mut Option<PendingSourceFd>, fd: i32, rate: u32, channels: u32) {
    let change = mic_spoofing_set_pending_source_fd(slot, fd, rate, channels);
    assert_eq!(change.stored, slot.is_some());
    fds.close(change.released);
    fds.close(change.refused);
}

#[test]
fn test_set_pending_source_fd_stores_metadata_and_owns_fd() {
    let mut fds = Descriptors::new();
    let mut slot = None;
    let raw_fd = fds.open(3);

    set(&mut fds, &mut slot, raw_fd, 48_000, 2);

    let pending = slot.as_ref().expect("pending source fd should be present");
    assert_eq!(pending.sample_rate, 48_000);
    assert_eq!(pending.channel_count, 2);
    assert!(fds.is_open(raw_fd), "fd should remain open while owned by thread-local storage");

    fds.close(mic_spoofing_clear_pending_source_fd(&mut slot));
    assert!(!fds.is_open(raw_fd), "fd should be closed after clearing the thread-local");
}

#[test]
fn test_set_pending_source_fd_replaces_existing_fd_and_closes_old_one() {
    let mut fds = Descriptors::new();
    let mut slot = None;
    let first_raw_fd = fds.open(3);
    let second_raw_fd = fds.open(4);

    set(&mut fds, &mut slot, first_raw_fd, 8_000, 1);
    assert!(fds.is_open(first_raw_fd));

    set(&mut fds, &mut slot, second_raw_fd, 16_000, 2);
    assert!(!fds.is_open(first_raw_fd), "replacing should close the old fd");
    let pending = slot.as_ref().expect("replacement should leave pending state");
    assert_eq!(pending.sample_rate, 16_000);
    assert_eq!(pending.channel_count, 2);

    fds.close(mic_spoofing_clear_pending_source_fd(&mut slot));
    assert!(!fds.is_open(second_raw_fd), "clearing should close the replacement fd");
}

#[test]
fn test_clear_pending_source_fd_is_idempotent() {
    let mut slot = None;
    mic_spoofing_clear_pending_source_fd(&mut slot);
    assert_eq!(mic_spoofing_clear_pending_source_fd(&mut slot), None);
    assert!(slot.is_none());
}

#[test]
fn test_set_pending_source_fd_with_invalid_input_clears_state() {
    let mut fds = Descriptors::new();
    let mut slot = None;
    set(&mut fds, &mut slot, -1, 48_000, 1);
    assert!(slot.is_none(), "invalid fd should not be stored");

    let temp_fd = fds.open(5);
    set(&mut fds, &mut slot, temp_fd, 0, 1);
    assert!(slot.is_none(), "invalid metadata should clear pending state");
    assert!(!fds.is_open(temp_fd), "invalid metadata should drop ownership of the fd");
}

#[test]
fn a_refused_source_takes_the_waiting_one_along() {
    for (fd, rate, channels) in [(-1, 48_000, 1), (6, 0, 1), (6, 48_000, 0)] {
        let mut fds = Descriptors::new();
        let mut slot = None;
        let waiting = fds.open(5);
        set(&mut fds, &mut slot, waiting, 48_000, 1);
        if fd >= 0 {
            fds.open(fd);
        }
        set(&mut fds, &mut slot, fd, rate, channels);
        assert!(slot.is_none());
        assert!(fds.open.is_empty());
    }
}

#[test]
fn taking_empties_the_slot() {
    let mut slot = Some(PendingSourceFd { fd: 8, sample_rate: 1, channel_count: 1 });
    assert_eq!(
        take_pending_source_fd(&mut slot),
        Some(PendingSourceFd { fd: 8, sample_rate: 1, channel_count: 1 })
    );
    assert_eq!(take_pending_source_fd(&mut slot), None);
    slot = Some(PendingSourceFd { fd: 9, sample_rate: 1, channel_count: 1 });
    assert_eq!(clear_pending_source_fd_inner(&mut slot), Some(9));
    assert_eq!(clear_pending_source_fd_inner(&mut slot), None);
}
