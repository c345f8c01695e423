//! The lookup of a capture client's own source, through the Java side of the process.
//!
//! The lookup is driven from outside: a [`CustomCall`] names the call to make next, and what it
//! gave back is handed in as the [`CustomReply`].
use vstd::prelude::*;
use vstd::string::*;
use crate::error::joined;
use crate::text::{
    append_decimal_int, decimal_int, lemma_reads_as, lemma_tells, reads_as, tells, tells_both,
};

verus! {

/// The lowest user id of an application.
pub const FIRST_APPLICATION_UID: i32 = 10_000;

/// Reads the constant `jni::sys::JNI_OK`, the status of a call into the virtual machine that
/// succeeded. It is zero.
#[verifier::external_body]
fn jni_ok() -> (r: i32)
    ensures
        r == 0,
{
    jni::sys::JNI_OK
}

/// Why a lookup failed.
#[derive(Debug)]
pub enum CustomSourceError {
    /// The process has no virtual machine.
    NoVm { status: i32, vm_count: i32 },
    /// The virtual machine cannot be used.
    Wrap(String),
    /// The thread cannot call into the virtual machine.
    Attach(String),
    /// The call for the source failed.
    Open(String),
    /// The call for the source gave no object.
    OpenType(String),
    /// The call for the descriptor failed.
    Detach(String),
    /// The call for the descriptor gave no integer.
    DetachType(String),
    /// The call for the descriptor gave none.
    InvalidFd(i32),
}

impl CustomSourceError {
    /// The message of a failure.
    pub open spec fn text(self) -> Seq<char> {
        match self {
            CustomSourceError::NoVm { status, vm_count } => "failed to get Java VM instance: status="@
                + decimal_int(status as int) + " vm_count="@ + decimal_int(vm_count as int),
            CustomSourceError::Wrap(e) => "failed to wrap Java VM: "@ + e@,
            CustomSourceError::Attach(e) => "failed to attach current thread to Java VM: "@ + e@,
            CustomSourceError::Open(e) => "openCustomSourceFdForSelf JNI call failed: "@ + e@,
            CustomSourceError::OpenType(e) => "openCustomSourceFdForSelf returned invalid type: "@
                + e@,
            CustomSourceError::Detach(e) => "ParcelFileDescriptor.detachFd failed: "@ + e@,
            CustomSourceError::DetachType(e) =>
                "ParcelFileDescriptor.detachFd returned invalid type: "@ + e@,
            CustomSourceError::InvalidFd(fd) => "ParcelFileDescriptor.detachFd returned invalid fd: "@
                + decimal_int(fd as int),
        }
    }

    /// The message of a failure.
    pub fn message(&self) -> (r: String)
        ensures
            r@ == self.text(),
    {
        match self {
            CustomSourceError::NoVm { status, vm_count } => {
                let mut s = "failed to get Java VM instance: status=".to_owned();
                append_decimal_int(&mut s, *status as i64);
                s.append(" vm_count=");
                append_decimal_int(&mut s, *vm_count as i64);
                s
            },
            CustomSourceError::Wrap(e) => joined("failed to wrap Java VM: ", e),
            CustomSourceError::Attach(e) => {
                joined("failed to attach current thread to Java VM: ", e)
            },
            CustomSourceError::Open(e) => joined("openCustomSourceFdForSelf JNI call failed: ", e),
            CustomSourceError::OpenType(e) => {
                joined("openCustomSourceFdForSelf returned invalid type: ", e)
            },
            CustomSourceError::Detach(e) => joined("ParcelFileDescriptor.detachFd failed: ", e),
            CustomSourceError::DetachType(e) => {
                joined("ParcelFileDescriptor.detachFd returned invalid type: ", e)
            },
            CustomSourceError::InvalidFd(fd) => {
                let mut s = "ParcelFileDescriptor.detachFd returned invalid fd: ".to_owned();
                append_decimal_int(&mut s, *fd as i64);
                s
            },
        }
    }
}

/// A call that the lookup needs.
#[derive(Clone, Copy, Debug, PartialEq, Eq, Structural)]
pub enum CustomCall {
    /// Ask for the virtual machine of the process.
    GetVm,
    /// Make the virtual machine usable.
    WrapVm,
    /// Attach the thread to it.
    AttachThread,
    /// Ask the application's side for its source.
    OpenSource,
    /// Take the descriptor out of the source.
    DetachFd,
}

/// What a call of a method gave back.
#[derive(Debug)]
pub enum MethodReply<T> {
    /// The call failed. An exception may be pending, which has to be cleared.
    Failed(String),
    /// The call gave a value of another type.
    WrongType(String),
    /// The call gave this value.
    Value(T),
}

/// What a call gave back.
pub enum CustomReply {
    Vm { status: i32, vm_count: i32, is_null: bool },
    Done(Result<(), String>),
    /// Whether the source is null.
    Source(MethodReply<bool>),
    Fd(MethodReply<i32>),
}

/// What follows.
#[derive(Debug)]
pub enum CustomNext {
    /// Make this call.
    Call(CustomCall),
    /// The lookup is over. A descriptor that it found belongs to the caller.
    Found(Result<Option<i32>, CustomSourceError>),
}

/// Whether a reply is one to a call.
pub open spec fn answers_custom(call: CustomCall, reply: CustomReply) -> bool {
    match call {
        CustomCall::GetVm => reply is Vm,
        CustomCall::WrapVm => reply is Done,
        CustomCall::AttachThread => reply is Done,
        CustomCall::OpenSource => reply is Source,
        CustomCall::DetachFd => reply is Fd,
    }
}

/// How a lookup starts. Only an application looks up a source, and only its own.
pub open spec fn custom_begin(uid: i32, current_uid: i32) -> CustomNext {
    if uid == current_uid && uid >= FIRST_APPLICATION_UID {
        CustomNext::Call(CustomCall::GetVm)
    } else {
        CustomNext::Found(Ok(None))
    }
}

/// Computes [`custom_begin`].
pub fn begin_custom_lookup(uid: i32, current_uid: i32) -> (r: CustomNext)
    ensures
        r == custom_begin(uid, current_uid),
{
    if uid != current_uid {
        return CustomNext::Found(Ok(None));
    }
    if uid < FIRST_APPLICATION_UID {
        return CustomNext::Found(Ok(None));
    }
    CustomNext::Call(CustomCall::GetVm)
}

/// What follows a call and its reply.
pub open spec fn custom_next(call: CustomCall, reply: CustomReply) -> CustomNext {
    match (call, reply) {
        (CustomCall::GetVm, CustomReply::Vm { status, vm_count, is_null }) => if status == 0
            && vm_count != 0 && !is_null {
            CustomNext::Call(CustomCall::WrapVm)
        } else {
            CustomNext::Found(Err(CustomSourceError::NoVm { status, vm_count }))
        },
        (CustomCall::WrapVm, CustomReply::Done(done)) => match done {
            Ok(_) => CustomNext::Call(CustomCall::AttachThread),
            Err(e) => CustomNext::Found(Err(CustomSourceError::Wrap(e))),
        },
        (CustomCall::AttachThread, CustomReply::Done(done)) => match done {
            Ok(_) => CustomNext::Call(CustomCall::OpenSource),
            Err(e) => CustomNext::Found(Err(CustomSourceError::Attach(e))),
        },
        (CustomCall::OpenSource, CustomReply::Source(source)) => match source {
            MethodReply::Failed(e) => CustomNext::Found(Err(CustomSourceError::Open(e))),
            MethodReply::WrongType(e) => CustomNext::Found(Err(CustomSourceError::OpenType(e))),
            MethodReply::Value(is_null) => if is_null {
                CustomNext::Found(Ok(None))
            } else {
                CustomNext::Call(CustomCall::DetachFd)
            },
        },
        (CustomCall::DetachFd, CustomReply::Fd(fd)) => match fd {
            MethodReply::Failed(e) => CustomNext::Found(Err(CustomSourceError::Detach(e))),
            MethodReply::WrongType(e) => CustomNext::Found(Err(CustomSourceError::DetachType(e))),
            MethodReply::Value(fd) => if fd < 0 {
                CustomNext::Found(Err(CustomSourceError::InvalidFd(fd)))
            } else {
                CustomNext::Found(Ok(Some(fd)))
            },
        },
        _ => arbitrary(),
    }
}

/// Goes on with a lookup that [`begin_custom_lookup`] started.
pub fn get_custom_source_fd(call: CustomCall, reply: CustomReply) -> (r: CustomNext)
    requires
        answers_custom(call, reply),
    ensures
        r == custom_next(call, reply),
        r matches CustomNext::Found(Ok(Some(fd))) ==> fd >= 0,
{
    match (call, reply) {
        (_, CustomReply::Vm { status, vm_count, is_null }) => {
            if status != jni_ok() || vm_count == 0 || is_null {
                return CustomNext::Found(Err(CustomSourceError::NoVm { status, vm_count }));
            }
            CustomNext::Call(CustomCall::WrapVm)
        },
        (CustomCall::WrapVm, CustomReply::Done(done)) => {
            match done {
                Ok(_) => CustomNext::Call(CustomCall::AttachThread),
                Err(e) => CustomNext::Found(Err(CustomSourceError::Wrap(e))),
            }
        },
        (_, CustomReply::Done(done)) => {
            match done {
                Ok(_) => CustomNext::Call(CustomCall::OpenSource),
                Err(e) => CustomNext::Found(Err(CustomSourceError::Attach(e))),
            }
        },
        (_, CustomReply::Source(source)) => {
            match source {
                MethodReply::Failed(e) => CustomNext::Found(Err(CustomSourceError::Open(e))),
                MethodReply::WrongType(e) => CustomNext::Found(Err(CustomSourceError::OpenType(e))),
                MethodReply::Value(is_null) => {
                    if is_null {
                        return CustomNext::Found(Ok(None));
                    }
                    CustomNext::Call(CustomCall::DetachFd)
                },
            }
        },
        (_, CustomReply::Fd(fd)) => {
            match fd {
                MethodReply::Failed(e) => CustomNext::Found(Err(CustomSourceError::Detach(e))),
                MethodReply::WrongType(e) => CustomNext::Found(
                    Err(CustomSourceError::DetachType(e)),
                ),
                MethodReply::Value(fd) => {
                    if fd < 0 {
                        return CustomNext::Found(Err(CustomSourceError::InvalidFd(fd)));
                    }
                    CustomNext::Found(Ok(Some(fd)))
                },
            }
        },
    }
}

/// How many calls may still follow.
pub open spec fn custom_rank(call: CustomCall) -> nat {
    match call {
        CustomCall::GetVm => 4,
        CustomCall::WrapVm => 3,
        CustomCall::AttachThread => 2,
        CustomCall::OpenSource => 1,
        CustomCall::DetachFd => 0,
    }
}

/// A lookup makes each call at most once, and in one order.
pub proof fn lemma_custom_lookup_ends(call: CustomCall, reply: CustomReply)
    requires
        answers_custom(call, reply),
    ensures
        custom_next(call, reply) matches CustomNext::Call(next) ==> custom_rank(next) < custom_rank(
            call,
        ),
{
}

/// What each call of a lookup would give back.
pub struct CustomWorld {
    pub status: i32,
    pub vm_count: i32,
    pub is_null: bool,
    pub wrapped: Result<(), String>,
    pub attached: Result<(), String>,
    pub source: MethodReply<bool>,
    pub fd: MethodReply<i32>,
}

impl CustomWorld {
    /// What a call gives back.
    pub open spec fn reply(self, call: CustomCall) -> CustomReply {
        match call {
            CustomCall::GetVm => CustomReply::Vm {
                status: self.status,
                vm_count: self.vm_count,
                is_null: self.is_null,
            },
            CustomCall::WrapVm => CustomReply::Done(self.wrapped),
            CustomCall::AttachThread => CustomReply::Done(self.attached),
            CustomCall::OpenSource => CustomReply::Source(self.source),
            CustomCall::DetachFd => CustomReply::Fd(self.fd),
        }
    }

    /// The outcome of a lookup, from a call on.
    pub open spec fn run(self, call: CustomCall) -> Result<Option<i32>, CustomSourceError>
        decreases custom_rank(call),
    {
        match custom_next(call, self.reply(call)) {
            CustomNext::Call(next) => self.run(next),
            CustomNext::Found(found) => found,
        }
    }

    /// The outcome of a whole lookup.
    pub open spec fn look_up(self, uid: i32, current_uid: i32) -> Result<
        Option<i32>,
        CustomSourceError,
    > {
        match custom_begin(uid, current_uid) {
            CustomNext::Call(call) => self.run(call),
            CustomNext::Found(found) => found,
        }
    }

    /// Whether the process has a virtual machine.
    pub open spec fn has_vm(self) -> bool {
        self.status == 0 && self.vm_count != 0 && !self.is_null
    }
}

/// A lookup finds a descriptor exactly when the client is the process itself and an application,
/// the virtual machine is there and can be used by the thread, the application has a source, and
/// the source gives a descriptor.
pub proof fn lemma_custom_source_is_found(world: CustomWorld, uid: i32, current_uid: i32, fd: i32)
    ensures
        world.look_up(uid, current_uid) == Ok::<_, CustomSourceError>(Some(fd)) <==> {
            &&& uid == current_uid && uid >= FIRST_APPLICATION_UID
            &&& world.has_vm()
            &&& world.wrapped is Ok
            &&& world.attached is Ok
            &&& world.source == MethodReply::Value(false)
            &&& world.fd == MethodReply::Value(fd)
            &&& fd >= 0
        },
{
    reveal_with_fuel(CustomWorld::run, 6);
}

/// The whole outcome of a lookup: nothing for a client that may not ask or has no source, and
/// otherwise the first thing that fails, or the descriptor.
pub proof fn lemma_custom_lookup_outcome(world: CustomWorld, uid: i32, current_uid: i32)
    ensures
        world.look_up(uid, current_uid) == if uid != current_uid || uid < FIRST_APPLICATION_UID {
            Ok(None)
        } else if !world.has_vm() {
            Err(CustomSourceError::NoVm { status: world.status, vm_count: world.vm_count })
        } else {
            match (world.wrapped, world.attached, world.source, world.fd) {
                (Err(e), _, _, _) => Err(CustomSourceError::Wrap(e)),
                (_, Err(e), _, _) => Err(CustomSourceError::Attach(e)),
                (_, _, MethodReply::Failed(e), _) => Err(CustomSourceError::Open(e)),
                (_, _, MethodReply::WrongType(e), _) => Err(CustomSourceError::OpenType(e)),
                (_, _, MethodReply::Value(true), _) => Ok(None),
                (_, _, _, MethodReply::Failed(e)) => Err(CustomSourceError::Detach(e)),
                (_, _, _, MethodReply::WrongType(e)) => Err(CustomSourceError::DetachType(e)),
                (_, _, _, MethodReply::Value(fd)) => if fd < 0 {
                    Err(CustomSourceError::InvalidFd(fd))
                } else {
                    Ok(Some(fd))
                },
            }
        },
{
    reveal_with_fuel(CustomWorld::run, 6);
}

/// A lookup calls into the virtual machine just for an application that asks for itself; for
/// anyone else there is no source, and nothing is called.
pub proof fn lemma_only_applications_look_up(uid: i32, current_uid: i32)
    ensures
        custom_begin(uid, current_uid) == CustomNext::Call(CustomCall::GetVm) <==> uid
            == current_uid && uid >= 10_000,
        custom_begin(uid, current_uid) == CustomNext::Found(Ok(None)) <==> uid != current_uid || uid
            < 10_000,
{
}

/// Each call of a lookup is followed by the next one just where it went well. What a failed call
/// told goes into the error, and only a lookup that made every call finds a descriptor, which is
/// the one that the last call gave.
pub proof fn lemma_custom_steps(call: CustomCall, reply: CustomReply)
    requires
        answers_custom(call, reply),
    ensures
        match reply {
            CustomReply::Vm { status, vm_count, is_null } => {
                &&& custom_next(call, reply) == CustomNext::Call(CustomCall::WrapVm) <==> status == 0
                    && vm_count != 0 && !is_null
                &&& custom_next(call, reply) matches CustomNext::Found(found) ==> (
                found matches Err(e) && (e matches CustomSourceError::NoVm {
                    status: told,
                    vm_count: count,
                } && told == status && count == vm_count))
            },
            CustomReply::Done(Ok(_)) => custom_next(call, reply) == CustomNext::Call(
                if call == CustomCall::WrapVm {
                    CustomCall::AttachThread
                } else {
                    CustomCall::OpenSource
                },
            ),
            CustomReply::Done(Err(e)) => custom_next(call, reply) matches CustomNext::Found(found)
                && (found matches Err(error) && match error {
                CustomSourceError::Wrap(told) => call == CustomCall::WrapVm && told == e,
                CustomSourceError::Attach(told) => call == CustomCall::AttachThread && told == e,
                _ => false,
            }),
            CustomReply::Source(source) => match source {
                MethodReply::Value(is_null) => {
                    &&& !is_null <==> custom_next(call, reply) == CustomNext::Call(
                        CustomCall::DetachFd,
                    )
                    &&& is_null <==> custom_next(call, reply) == CustomNext::Found(Ok(None))
                },
                MethodReply::Failed(e) => custom_next(call, reply) == CustomNext::Found(
                    Err(CustomSourceError::Open(e)),
                ),
                MethodReply::WrongType(e) => custom_next(call, reply) == CustomNext::Found(
                    Err(CustomSourceError::OpenType(e)),
                ),
            },
            CustomReply::Fd(fd) => match fd {
                MethodReply::Value(fd) => {
                    &&& fd >= 0 <==> custom_next(call, reply) == CustomNext::Found(Ok(Some(fd)))
                    &&& fd < 0 <==> custom_next(call, reply) == CustomNext::Found(
                        Err(CustomSourceError::InvalidFd(fd)),
                    )
                },
                MethodReply::Failed(e) => custom_next(call, reply) == CustomNext::Found(
                    Err(CustomSourceError::Detach(e)),
                ),
                MethodReply::WrongType(e) => custom_next(call, reply) == CustomNext::Found(
                    Err(CustomSourceError::DetachType(e)),
                ),
            },
        },
{
}

/// What a failed lookup names can be read from its message: the status and the count, the
/// descriptor, or the reason that the call gave.
pub proof fn lemma_lookup_messages(e: CustomSourceError)
    ensures
        match e {
            CustomSourceError::NoVm { status, vm_count } => tells_both(
                e.text(),
                "failed to get Java VM instance: status="@,
                status as int,
                " vm_count="@,
                vm_count as int,
            ),
            CustomSourceError::Wrap(why) => e.text() == "failed to wrap Java VM: "@ + why@,
            CustomSourceError::Attach(why) => e.text()
                == "failed to attach current thread to Java VM: "@ + why@,
            CustomSourceError::Open(why) => e.text()
                == "openCustomSourceFdForSelf JNI call failed: "@ + why@,
            CustomSourceError::OpenType(why) => e.text()
                == "openCustomSourceFdForSelf returned invalid type: "@ + why@,
            CustomSourceError::Detach(why) => e.text() == "ParcelFileDescriptor.detachFd failed: "@
                + why@,
            CustomSourceError::DetachType(why) => e.text()
                == "ParcelFileDescriptor.detachFd returned invalid type: "@ + why@,
            CustomSourceError::InvalidFd(fd) => tells(
                e.text(),
                "ParcelFileDescriptor.detachFd returned invalid fd: "@,
                fd as int,
            ),
        },
{
    match e {
        CustomSourceError::NoVm { status, vm_count } => {
            lemma_reads_as(status as int);
            lemma_reads_as(vm_count as int);
            assert(reads_as(decimal_int(status as int), status as int));
            assert(reads_as(decimal_int(vm_count as int), vm_count as int));
        },
        CustomSourceError::InvalidFd(fd) => {
            lemma_tells("ParcelFileDescriptor.detachFd returned invalid fd: "@, fd as int);
        },
        _ => {},
    }
}

} // verus!
