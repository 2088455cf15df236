//! The bridge between the profiler and a freshly launched child process.
//!
//! The child is started with a preload library that connects back to the
//! profiler's message server. This module computes what the launcher hands to
//! the child and decodes what the child sends; sending, receiving and
//! spawning are left to the caller.

use vstd::prelude::*;

verus! {

/// A Mach port name.
#[allow(non_camel_case_types)]
pub type mach_port_t = u32;

/// The null port: the name that stands for no port.
pub const MACH_PORT_NULL: mach_port_t = 0;

/// Length of the tag that every message starts with.
pub const TAG_LEN: usize = 7;

/// The bytes of `"My task"`.
pub open spec fn my_task_tag() -> Seq<u8> {
    seq![77u8, 121u8, 32u8, 116u8, 97u8, 115u8, 107u8]
}

/// The bytes of `"Jitdump"`.
pub open spec fn jitdump_tag() -> Seq<u8> {
    seq![74u8, 105u8, 116u8, 100u8, 117u8, 109u8, 112u8]
}

/// The bytes of `"Proceed"`.
pub open spec fn proceed_tag() -> Seq<u8> {
    seq![80u8, 114u8, 111u8, 99u8, 101u8, 101u8, 100u8]
}

/// The characters of `"DYLD_INSERT_LIBRARIES"`.
pub open spec fn preload_variable() -> Seq<char> {
    seq![
        'D', 'Y', 'L', 'D', '_', 'I', 'N', 'S', 'E', 'R', 'T', '_', 'L', 'I', 'B', 'R', 'A', 'R',
        'I', 'E', 'S',
    ]
}

/// The characters of `"SAMPLY_BOOTSTRAP_SERVER_NAME"`.
pub open spec fn server_name_variable() -> Seq<char> {
    seq![
        'S', 'A', 'M', 'P', 'L', 'Y', '_', 'B', 'O', 'O', 'T', 'S', 'T', 'R', 'A', 'P', '_', 'S',
        'E', 'R', 'V', 'E', 'R', '_', 'N', 'A', 'M', 'E',
    ]
}

/// The characters of `"libsamply_mac_preload.dylib"`.
pub open spec fn preload_lib_file_name() -> Seq<char> {
    seq![
        'l', 'i', 'b', 's', 'a', 'm', 'p', 'l', 'y', '_', 'm', 'a', 'c', '_', 'p', 'r', 'e', 'l',
        'o', 'a', 'd', '.', 'd', 'y', 'l', 'i', 'b',
    ]
}

/// The number that four bytes spell in little-endian order.
pub open spec fn le_u32(b: Seq<u8>) -> u32
    recommends
        b.len() == 4,
{
    (b[0] + 0x100 * b[1] + 0x1_0000 * b[2] + 0x100_0000 * b[3]) as u32
}

/// A message announces the child's task: the tag `"My task"`, then the
/// child's pid as four little-endian bytes.
pub open spec fn is_task_message(message: Seq<u8>) -> bool {
    message.len() == 11 && message.subrange(0, 7) == my_task_tag()
}

/// A message names a JIT dump file: the tag `"Jitdump"`, the pid as four
/// little-endian bytes, one byte for the path's length, then the path.
pub open spec fn is_jitdump_message(message: Seq<u8>) -> bool {
    message.len() >= 12 && message.subrange(0, 7) == jitdump_tag() && message.len() >= 12
        + message[11]
}

/// The path that a JIT dump message carries.
pub open spec fn jitdump_path(message: Seq<u8>) -> Seq<u8> {
    message.subrange(12, 12 + message[11])
}

/// A message that the bridge can decode, given the channels that came with it.
pub open spec fn is_known_message(message: Seq<u8>, channels: Seq<mach_port_t>) -> bool {
    (is_task_message(message) && channels.len() >= 2) || is_jitdump_message(message)
}

/// A child process that has handed over its task port and now waits for the
/// signal to go on.
#[derive(Debug, PartialEq, Eq)]
pub struct AcceptedTask {
    task: mach_port_t,
    pid: u32,
    sender_channel: mach_port_t,
}

/// What a message from a child process holds.
#[derive(Debug, PartialEq, Eq)]
pub enum ReceivedStuff {
    AcceptedTask(AcceptedTask),
    /// The pid of the child and the path of the JIT dump file it wrote.
    JitdumpPath(u32, Vec<u8>),
}

/// A message to put on a channel.
#[derive(Debug, PartialEq, Eq)]
pub struct OutgoingMessage {
    pub channel: mach_port_t,
    pub bytes: Vec<u8>,
}

impl AcceptedTask {
    /// The task port that is still held, or the null port once it was taken.
    pub closed spec fn task(&self) -> mach_port_t {
        self.task
    }

    /// The child's process id.
    pub closed spec fn pid(&self) -> u32 {
        self.pid
    }

    /// The channel on which the child waits for the signal to go on.
    pub closed spec fn sender_channel(&self) -> mach_port_t {
        self.sender_channel
    }

    /// Hands the task port to the caller and leaves the null port behind, so
    /// that the port has one owner at any time.
    pub fn take_task(&mut self) -> (task: mach_port_t)
        ensures
            task == old(self).task(),
            final(self).task() == MACH_PORT_NULL,
            final(self).pid() == old(self).pid(),
            final(self).sender_channel() == old(self).sender_channel(),
    {
        let task = self.task;
        self.task = MACH_PORT_NULL;
        task
    }

    pub fn get_id(&self) -> (pid: u32)
        ensures
            pid == self.pid(),
    {
        self.pid
    }

    /// The message that lets the child go on: `"Proceed"`, for the child's
    /// reply channel.
    pub fn start_execution(&self) -> (message: OutgoingMessage)
        ensures
            message.channel == self.sender_channel(),
            message.bytes@ == proceed_tag(),
    {
        let mut bytes: Vec<u8> = Vec::new();
        bytes.push(80);
        bytes.push(114);
        bytes.push(111);
        bytes.push(99);
        bytes.push(101);
        bytes.push(101);
        bytes.push(100);
        assert(bytes@ =~= proceed_tag());
        OutgoingMessage { channel: self.sender_channel, bytes }
    }
}

/// Whether `message` starts with the seven bytes of `tag`.
fn has_tag(message: &[u8], tag: [u8; 7]) -> (b: bool)
    ensures
        b == (message@.len() >= 7 && message@.subrange(0, 7) == tag@),
{
    if message.len() < 7 {
        return false;
    }
    let mut i: usize = 0;
    while i < 7
        invariant
            0 <= i <= 7 <= message@.len(),
            forall|j: int| 0 <= j < i ==> message@[j] == tag@[j],
        decreases 7 - i,
    {
        if message[i] != tag[i] {
            assert(message@.subrange(0, 7)[i as int] == message@[i as int]);
            return false;
        }
        i += 1;
    }
    assert(message@.subrange(0, 7) =~= tag@);
    true
}

/// Reads four little-endian bytes at `at`.
fn read_le_u32(message: &[u8], at: usize) -> (value: u32)
    requires
        at + 4 <= message@.len(),
    ensures
        value == le_u32(message@.subrange(at as int, at + 4)),
{
    let b0 = message[at] as u32;
    let b1 = message[at + 1] as u32;
    let b2 = message[at + 2] as u32;
    let b3 = message[at + 3] as u32;
    b0 + 0x100 * b1 + 0x1_0000 * b2 + 0x100_0000 * b3
}

/// The receiving end of the bridge, as far as decisions go: which server the
/// child reports to and which library is loaded into it.
pub struct TaskAccepter {
    server_name: String,
    preload_lib_path: String,
}

impl TaskAccepter {
    /// The registration name of the message server.
    pub closed spec fn server_name(&self) -> Seq<char> {
        self.server_name@
    }

    /// Where the preload library was put.
    pub closed spec fn preload_lib_path(&self) -> Seq<char> {
        self.preload_lib_path@
    }

    /// Sets up the bridge for a server registered as `server_name` and a
    /// preload library at `preload_lib_path`, and gives the environment to
    /// start the child in: the `inherited` one, then the variable that makes
    /// the loader insert the library, then the one that names the server.
    pub fn create_and_launch_root_task(
        server_name: String,
        preload_lib_path: String,
        inherited: Vec<(String, String)>,
    ) -> (r: (Self, Vec<(String, String)>))
        ensures
            r.0.server_name() == server_name@,
            r.0.preload_lib_path() == preload_lib_path@,
            r.1@.len() == inherited@.len() + 2,
            r.1@.subrange(0, inherited@.len() as int) == inherited@,
            r.1@[inherited@.len() as int].0@ == preload_variable(),
            r.1@[inherited@.len() as int].1@ == preload_lib_path@,
            r.1@[inherited@.len() as int + 1].0@ == server_name_variable(),
            r.1@[inherited@.len() as int + 1].1@ == server_name@,
    {
        let mut child_env = inherited;
        let insert_libraries = "DYLD_INSERT_LIBRARIES";
        let bootstrap_name = "SAMPLY_BOOTSTRAP_SERVER_NAME";
        proof {
            reveal_strlit("DYLD_INSERT_LIBRARIES");
            reveal_strlit("SAMPLY_BOOTSTRAP_SERVER_NAME");
            assert(insert_libraries@ =~= preload_variable());
            assert(bootstrap_name@ =~= server_name_variable());
        }
        child_env.push((insert_libraries.to_owned(), preload_lib_path.clone()));
        child_env.push((bootstrap_name.to_owned(), server_name.clone()));
        assert(child_env@.subrange(0, inherited@.len() as int) =~= inherited@);
        (TaskAccepter { server_name, preload_lib_path }, child_env)
    }

    /// The name of the file that the preload library is written to, inside a
    /// directory of the caller's choice.
    pub fn preload_lib_name() -> (name: &'static str)
        ensures
            name@ == preload_lib_file_name(),
    {
        let name = "libsamply_mac_preload.dylib";
        proof {
            reveal_strlit("libsamply_mac_preload.dylib");
            assert(name@ =~= preload_lib_file_name());
        }
        name
    }

    /// Whether `message`, received with `channels`, is one that
    /// [`TaskAccepter::next_message`] decodes.
    pub fn is_known(message: &[u8], channels: &Vec<mach_port_t>) -> (b: bool)
        ensures
            b == is_known_message(message@, channels@),
    {
        if has_tag(message, [77, 121, 32, 116, 97, 115, 107]) {
            proof {
                assert(my_task_tag() =~= [77u8, 121u8, 32u8, 116u8, 97u8, 115u8, 107u8]@);
                assert(my_task_tag()[0] != jitdump_tag()[0]);
                assert(message@.subrange(0, 7)[0] == 77);
            }
            message.len() == 11 && channels.len() >= 2
        } else if has_tag(message, [74, 105, 116, 100, 117, 109, 112]) {
            proof {
                assert(jitdump_tag() =~= [74u8, 105u8, 116u8, 100u8, 117u8, 109u8, 112u8]@);
                assert(my_task_tag() =~= [77u8, 121u8, 32u8, 116u8, 97u8, 115u8, 107u8]@);
            }
            message.len() >= 12 && message.len() - 12 >= message[11] as usize
        } else {
            proof {
                assert(jitdump_tag() =~= [74u8, 105u8, 116u8, 100u8, 117u8, 109u8, 112u8]@);
                assert(my_task_tag() =~= [77u8, 121u8, 32u8, 116u8, 97u8, 115u8, 107u8]@);
            }
            false
        }
    }

    /// Decodes one message from a child. With a task message came two
    /// channels, the last of them the task port and the one before it the
    /// channel for the reply; both are taken off `channels`.
    pub fn next_message(&self, message: &[u8], channels: &mut Vec<mach_port_t>) -> (received:
        ReceivedStuff)
        requires
            is_known_message(message@, old(channels)@),
        ensures
            is_task_message(message@) ==> {
                &&& received matches ReceivedStuff::AcceptedTask(task)
                &&& task.pid() == le_u32(message@.subrange(7, 11))
                &&& task.task() == old(channels)@[old(channels)@.len() - 1]
                &&& task.sender_channel() == old(channels)@[old(channels)@.len() - 2]
                &&& final(channels)@ == old(channels)@.subrange(0, old(channels)@.len() - 2)
            },
            !is_task_message(message@) ==> {
                &&& received matches ReceivedStuff::JitdumpPath(pid, path)
                &&& pid == le_u32(message@.subrange(7, 11))
                &&& path@ == jitdump_path(message@)
                &&& final(channels)@ == old(channels)@
            },
    {
        if has_tag(message, [77, 121, 32, 116, 97, 115, 107]) {
            proof {
                assert(my_task_tag() =~= [77u8, 121u8, 32u8, 116u8, 97u8, 115u8, 107u8]@);
                assert(message@.subrange(0, 7)[0] == 77);
                assert(jitdump_tag()[0] == 74);
            }
            let pid = read_le_u32(message, 7);
            let task = channels.pop().unwrap();
            let sender_channel = channels.pop().unwrap();
            assert(channels@ =~= old(channels)@.subrange(0, old(channels)@.len() - 2));
            ReceivedStuff::AcceptedTask(AcceptedTask { task, pid, sender_channel })
        } else {
            proof {
                assert(my_task_tag() =~= [77u8, 121u8, 32u8, 116u8, 97u8, 115u8, 107u8]@);
            }
            let pid = read_le_u32(message, 7);
            let len = message[11] as usize;
            let total = message.len();
            let mut path: Vec<u8> = Vec::new();
            let mut i: usize = 0;
            while i < len
                invariant
                    0 <= i <= len,
                    12 + len <= message@.len() == total,
                    path@ == message@.subrange(12, 12 + i),
                decreases len - i,
            {
                path.push(message[12 + i]);
                assert(path@ =~= message@.subrange(12, 12 + i + 1));
                i += 1;
            }
            ReceivedStuff::JitdumpPath(pid, path)
        }
    }
}

} // verus!
