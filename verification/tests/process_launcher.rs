use samply_core::mac::process_launcher::{
    AcceptedTask, OutgoingMessage, ReceivedStuff, TaskAccepter, MACH_PORT_NULL,
};

fn accepter() -> TaskAccepter {
    TaskAccepter::create_and_launch_root_task(
        "org.example.server".to_string(),
        "/tmp/x/libsamply_mac_preload.dylib".to_string(),
        Vec::new(),
    )
    .0
}

fn accept(pid: u32, task: u32, sender: u32) -> AcceptedTask {
    let mut message = b"My task".to_vec();
    message.extend_from_slice(&pid.to_le_bytes());
    let mut channels = vec![sender, task];
    match accepter().next_message(&message, &mut channels) {
        ReceivedStuff::AcceptedTask(task) => task,
        other => panic!("unexpected message: {:?}", other),
    }
}

#[test]
fn my_task_message_gives_an_accepted_task() {
    let mut message = b"My task".to_vec();
    message.extend_from_slice(&1234u32.to_le_bytes());
    assert_eq!(message.len(), 11);
    let mut channels = vec![0x55, 0x707, 0x1303];
    assert!(TaskAccepter::is_known(&message, &channels));
    let received = accepter().next_message(&message, &mut channels);
    // The two channels that came last are used up: the task port was pushed
    // last, the reply channel before it.
    assert_eq!(channels, vec![0x55]);
    let mut task = match received {
        ReceivedStuff::AcceptedTask(task) => task,
        other => panic!("unexpected message: {:?}", other),
    };
    assert_eq!(task.get_id(), 1234);
    assert_eq!(
        task.start_execution(),
        OutgoingMessage { channel: 0x707, bytes: b"Proceed".to_vec() }
    );
    assert_eq!(task.take_task(), 0x1303);
}

#[test]
fn start_execution_sends_exactly_proceed() {
    let task = accept(7, 11, 13);
    let message = task.start_execution();
    assert_eq!(message.bytes, vec![b'P', b'r', b'o', b'c', b'e', b'e', b'd']);
    assert_eq!(message.bytes.len(), 7);
    assert_eq!(message.channel, 13);
}

#[test]
fn take_task_hands_the_port_over_once() {
    let mut task = accept(99, 0xabcd, 0x10);
    assert_eq!(task.take_task(), 0xabcd);
    assert_eq!(task.take_task(), MACH_PORT_NULL);
    assert_eq!(task.take_task(), 0);
    // The rest of the task stays as it was.
    assert_eq!(task.get_id(), 99);
    assert_eq!(task.start_execution().channel, 0x10);
}

#[test]
fn pid_is_read_in_little_endian_order() {
    let task = accept(0x0403_0201, 1, 2);
    assert_eq!(task.get_id(), 0x0403_0201);
    let mut message = b"My task".to_vec();
    message.extend_from_slice(&[0xd2, 0x04, 0x00, 0x00]);
    let mut channels = vec![1, 2];
    match accepter().next_message(&message, &mut channels) {
        ReceivedStuff::AcceptedTask(task) => assert_eq!(task.get_id(), 1234),
        other => panic!("unexpected message: {:?}", other),
    }
    let task = accept(u32::MAX, 1, 2);
    assert_eq!(task.get_id(), u32::MAX);
}

#[test]
fn jitdump_message_gives_the_path() {
    let mut message = b"Jitdump".to_vec();
    message.extend_from_slice(&4321u32.to_le_bytes());
    message.push(5);
    message.extend_from_slice(b"a/b/c");
    let mut channels = Vec::new();
    assert!(TaskAccepter::is_known(&message, &channels));
    let received = accepter().next_message(&message, &mut channels);
    assert_eq!(received, ReceivedStuff::JitdumpPath(4321, b"a/b/c".to_vec()));
    assert!(channels.is_empty());
}

#[test]
fn jitdump_path_ends_where_its_length_says() {
    let mut message = b"Jitdump".to_vec();
    message.extend_from_slice(&1u32.to_le_bytes());
    message.push(3);
    message.extend_from_slice(b"abcdef");
    let mut channels = vec![9];
    let received = accepter().next_message(&message, &mut channels);
    assert_eq!(received, ReceivedStuff::JitdumpPath(1, b"abc".to_vec()));
    assert_eq!(channels, vec![9]);

    let mut empty_path = b"Jitdump".to_vec();
    empty_path.extend_from_slice(&2u32.to_le_bytes());
    empty_path.push(0);
    let received = accepter().next_message(&empty_path, &mut channels);
    assert_eq!(received, ReceivedStuff::JitdumpPath(2, Vec::new()));
}

#[test]
fn messages_that_cannot_be_decoded_are_told_apart() {
    let no_channels: Vec<u32> = Vec::new();
    let two_channels: Vec<u32> = vec![1, 2];
    // Too short for a tag.
    assert!(!TaskAccepter::is_known(b"My tas", &two_channels));
    assert!(!TaskAccepter::is_known(b"", &two_channels));
    // Another tag.
    assert!(!TaskAccepter::is_known(b"Proceed\x01\x02\x03\x04", &two_channels));
    // A task message needs four bytes of pid, and two channels.
    assert!(!TaskAccepter::is_known(b"My task\x01\x02\x03", &two_channels));
    assert!(!TaskAccepter::is_known(b"My task\x01\x02\x03\x04\x05", &two_channels));
    assert!(!TaskAccepter::is_known(b"My task\x01\x02\x03\x04", &vec![1]));
    assert!(TaskAccepter::is_known(b"My task\x01\x02\x03\x04", &two_channels));
    // A jitdump message needs its pid, its length byte and all of its path.
    assert!(!TaskAccepter::is_known(b"Jitdump\x01\x02\x03\x04", &no_channels));
    assert!(!TaskAccepter::is_known(b"Jitdump\x01\x02\x03\x04\x02a", &no_channels));
    assert!(TaskAccepter::is_known(b"Jitdump\x01\x02\x03\x04\x02ab", &no_channels));
    assert!(TaskAccepter::is_known(b"Jitdump\x01\x02\x03\x04\x00", &no_channels));
}

#[test]
fn child_environment_gets_the_two_variables_at_the_end() {
    let inherited = vec![
        ("PATH".to_string(), "/usr/bin".to_string()),
        ("HOME".to_string(), "/Users/me".to_string()),
    ];
    let (_accepter, env) = TaskAccepter::create_and_launch_root_task(
        "org.example.server.17".to_string(),
        "/tmp/dir/libsamply_mac_preload.dylib".to_string(),
        inherited.clone(),
    );
    assert_eq!(env.len(), 4);
    assert_eq!(&env[..2], &inherited[..]);
    assert_eq!(
        env[2],
        ("DYLD_INSERT_LIBRARIES".to_string(), "/tmp/dir/libsamply_mac_preload.dylib".to_string())
    );
    assert_eq!(
        env[3],
        ("SAMPLY_BOOTSTRAP_SERVER_NAME".to_string(), "org.example.server.17".to_string())
    );
}

#[test]
fn preload_library_has_its_fixed_name() {
    assert_eq!(TaskAccepter::preload_lib_name(), "libsamply_mac_preload.dylib");
}
