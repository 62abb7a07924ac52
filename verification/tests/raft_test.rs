use john::raft::{
    apply, HttpIntercommunication, JohnCommand, JohnQuery, JohnReplicationLog, JohnResponse,
};
use john::replication::LogError;
use john::transport::Package;
use john::Rivers;

fn push(river: &str, message: &str) -> JohnCommand {
    JohnCommand::Push(river.to_string(), message.to_string())
}

fn peek(river: &str, offset: Option<usize>) -> JohnCommand {
    JohnCommand::Peek(river.to_string(), offset)
}

fn clear(river: &str) -> JohnCommand {
    JohnCommand::Clear(river.to_string())
}

#[test]
fn new_log_is_empty() {
    let log = JohnReplicationLog::new();
    assert_eq!(0, log.len());
    assert_eq!(0, log.committed_offset());
    assert_eq!(0, log.applied_offset());
    assert!(log.entry(0).is_none());
    assert!(log.entry(1).is_none());
}

#[test]
fn enqueue_appends_at_the_tail_and_returns_the_index() {
    let mut log = JohnReplicationLog::new();
    assert_eq!(1, log.enqueue(push("r", "one")));
    assert_eq!(2, log.enqueue(peek("r", None)));
    assert_eq!(3, log.enqueue(clear("r")));
    assert_eq!(3, log.len());
    assert_eq!(0, log.committed_offset());
    let second = log.entry(2).unwrap();
    assert_eq!(2, second.index);
    assert!(!second.committed);
    assert!(second.command.same(&peek("r", None)));
    assert!(log.entry(4).is_none());
}

#[test]
fn commit_advances_and_never_goes_back() {
    let mut log = JohnReplicationLog::new();
    log.enqueue(push("r", "one"));
    log.enqueue(push("r", "two"));
    log.enqueue(push("r", "three"));
    assert_eq!(Ok(()), log.commit_upto(2));
    assert_eq!(2, log.committed_offset());
    assert!(log.entry(1).unwrap().committed);
    assert!(log.entry(2).unwrap().committed);
    assert!(!log.entry(3).unwrap().committed);

    assert_eq!(Err(LogError::CommitViolation), log.commit_upto(1));
    assert_eq!(2, log.committed_offset());
    assert_eq!(Err(LogError::CommitViolation), log.commit_upto(4));
    assert_eq!(2, log.committed_offset());
    assert_eq!(Ok(()), log.commit_upto(2));
    assert_eq!(Ok(()), log.commit_upto(3));
    assert_eq!(3, log.committed_offset());
    assert!(log.committed_offset() <= log.len());
}

#[test]
fn discard_cuts_the_uncommitted_tail_only() {
    let mut log = JohnReplicationLog::new();
    for n in 0..5 {
        log.enqueue(push("r", &format!("m{}", n)));
    }
    log.commit_upto(2).unwrap();
    assert_eq!(Err(LogError::CommitViolation), log.discard_downto(1));
    assert_eq!(5, log.len());
    assert_eq!(Ok(()), log.discard_downto(9));
    assert_eq!(5, log.len());
    assert_eq!(Ok(()), log.discard_downto(3));
    assert_eq!(3, log.len());
    assert_eq!(2, log.committed_offset());
    assert!(log.entry(3).unwrap().command.same(&push("r", "m2")));
    assert_eq!(Ok(()), log.discard_downto(2));
    assert_eq!(2, log.len());
    assert_eq!(4 - 1, log.enqueue(push("r", "other")));
}

#[test]
fn acknowledgments_are_counted_by_node() {
    let mut log = JohnReplicationLog::new();
    for n in 0..4 {
        log.enqueue(push("r", &format!("m{}", n)));
    }
    assert_eq!(Ok(1), log.persisted(3, "a".to_string()));
    assert_eq!(Ok(2), log.persisted(2, "b".to_string()));
    assert_eq!(Ok(1), log.persisted(4, "c".to_string()));
    assert_eq!(3, log.acknowledged_by(0));
    assert_eq!(3, log.acknowledged_by(2));
    assert_eq!(2, log.acknowledged_by(3));
    assert_eq!(1, log.acknowledged_by(4));
    assert_eq!(0, log.acknowledged_by(5));
    assert_eq!(Ok(3), log.persisted(1, "a".to_string()));
    assert_eq!(1, log.acknowledged_by(3));
    assert_eq!(Ok(2), log.persisted(4, "a".to_string()));
    assert_eq!(Ok(2), log.persisted(4, "a".to_string()));
    assert_eq!(Err(LogError::CommitViolation), log.persisted(5, "d".to_string()));
    assert_eq!(3, log.acknowledged_by(0));
}

#[test]
fn autocommit_needs_a_majority() {
    let mut log = JohnReplicationLog::new();
    for n in 0..5 {
        log.enqueue(push("r", &format!("m{}", n)));
    }
    log.autocommit_if_safe(2);
    assert_eq!(0, log.committed_offset());
    log.persisted(5, "a".to_string()).unwrap();
    log.autocommit_if_safe(2);
    assert_eq!(0, log.committed_offset());
    log.persisted(3, "b".to_string()).unwrap();
    log.autocommit_if_safe(2);
    assert_eq!(3, log.committed_offset());
    log.persisted(4, "c".to_string()).unwrap();
    log.autocommit_if_safe(3);
    assert_eq!(3, log.committed_offset());
    log.autocommit_if_safe(2);
    assert_eq!(4, log.committed_offset());
    log.persisted(1, "a".to_string()).unwrap();
    log.autocommit_if_safe(1);
    assert_eq!(4, log.committed_offset());
    log.persisted(5, "b".to_string()).unwrap();
    log.autocommit_if_safe(1);
    assert_eq!(5, log.committed_offset());
    assert!(log.entry(5).unwrap().committed);
}

#[test]
fn repeated_acknowledgments_of_one_node_count_once() {
    let mut log = JohnReplicationLog::new();
    log.enqueue(push("r", "m"));
    log.persisted(1, "a".to_string()).unwrap();
    log.persisted(1, "a".to_string()).unwrap();
    log.persisted(1, "a".to_string()).unwrap();
    log.autocommit_if_safe(2);
    assert_eq!(0, log.committed_offset());
}

#[test]
fn discard_takes_back_acknowledgments_of_what_is_gone() {
    let mut log = JohnReplicationLog::new();
    for n in 0..4 {
        log.enqueue(push("r", &format!("m{}", n)));
    }
    log.persisted(4, "a".to_string()).unwrap();
    log.persisted(4, "b".to_string()).unwrap();
    log.discard_downto(2).unwrap();
    log.enqueue(push("r", "new 3"));
    log.enqueue(push("r", "new 4"));
    assert_eq!(2, log.acknowledged_by(2));
    assert_eq!(0, log.acknowledged_by(3));
    log.autocommit_if_safe(2);
    assert_eq!(2, log.committed_offset());
}

#[test]
fn committed_entries_are_applied_in_order() {
    let mut log = JohnReplicationLog::new();
    let mut rivers = Rivers::new();
    log.enqueue(push("r", "one"));
    log.enqueue(push("r", "two"));
    log.enqueue(peek("r", None));
    log.enqueue(clear("r"));
    log.enqueue(peek("r", None));

    assert!(log.apply_committed(&mut rivers).is_empty());
    assert!(!rivers.contains("r"));

    log.commit_upto(3).unwrap();
    let handed = log.apply_committed(&mut rivers);
    assert_eq!(3, handed.len());
    assert_eq!(vec![1, 2, 3], handed.iter().map(|a| a.index).collect::<Vec<usize>>());
    assert!(matches!(handed[0].response, JohnResponse::PushResponse));
    assert!(matches!(handed[1].response, JohnResponse::PushResponse));
    match &handed[2].response {
        JohnResponse::PeekResponse(Some(found)) => {
            assert_eq!("two", found.message);
            assert_eq!(3, found.offset);
        }
        _ => panic!("the peek comes after both pushes"),
    }
    assert_eq!(3, log.applied_offset());
    assert_eq!(2 * 4096, rivers.bytes("r").unwrap().len());
    assert!(log.apply_committed(&mut rivers).is_empty());

    log.commit_upto(5).unwrap();
    let handed = log.apply_committed(&mut rivers);
    assert_eq!(2, handed.len());
    assert!(matches!(handed[0].response, JohnResponse::ClearResponse));
    assert!(matches!(handed[1].response, JohnResponse::PeekResponse(None)));
    assert_eq!(5, log.applied_offset());
}

#[test]
fn apply_next_takes_one_entry() {
    let mut log = JohnReplicationLog::new();
    let mut rivers = Rivers::new();
    log.enqueue(push("r", "one"));
    log.enqueue(push("r", "two"));
    assert!(log.apply_next(&mut rivers).is_none());
    log.commit_upto(2).unwrap();
    let first = log.apply_next(&mut rivers).unwrap();
    assert_eq!(1, first.index);
    assert!(first.respond_to.is_empty());
    assert_eq!(1, log.applied_offset());
    assert_eq!(4096, rivers.bytes("r").unwrap().len());
    let second = log.apply_next(&mut rivers).unwrap();
    assert_eq!(2, second.index);
    assert!(log.apply_next(&mut rivers).is_none());
}

#[test]
fn queries_are_answered_when_their_entry_is_applied() {
    let mut log = JohnReplicationLog::new();
    let mut rivers = Rivers::new();
    log.enqueue(push("r", "one"));
    log.enqueue(peek("r", Some(1)));
    log.enqueue(push("r", "one"));

    let waits_for = log.query_persistance(
        JohnQuery::PushQuery("r".to_string(), "one".to_string()),
        11,
    );
    assert_eq!(Some(3), waits_for);
    assert_eq!(
        Some(2),
        log.query_persistance(JohnQuery::PeekQuery("r".to_string(), Some(1)), 12)
    );
    assert_eq!(
        Some(2),
        log.query_persistance(JohnQuery::PeekQuery("r".to_string(), Some(1)), 13)
    );
    assert_eq!(None, log.query_persistance(JohnQuery::PeekQuery("r".to_string(), None), 14));
    assert_eq!(None, log.query_persistance(JohnQuery::ClearQuery("r".to_string()), 15));
    assert_eq!(None, log.query_persistance(JohnQuery::PeekQuery("s".to_string(), Some(1)), 16));

    log.commit_upto(2).unwrap();
    let handed = log.apply_committed(&mut rivers);
    assert_eq!(2, handed.len());
    assert!(handed[0].respond_to.is_empty());
    assert_eq!(vec![12, 13], handed[1].respond_to);
    match &handed[1].response {
        JohnResponse::PeekResponse(Some(found)) => assert_eq!("one", found.message),
        _ => panic!("the first message is there"),
    }

    log.commit_upto(3).unwrap();
    let handed = log.apply_committed(&mut rivers);
    assert_eq!(1, handed.len());
    assert_eq!(3, handed[0].index);
    assert_eq!(vec![11], handed[0].respond_to);
}

#[test]
fn query_for_an_applied_command_is_dropped() {
    let mut log = JohnReplicationLog::new();
    let mut rivers = Rivers::new();
    log.enqueue(clear("r"));
    log.commit_upto(1).unwrap();
    log.apply_committed(&mut rivers);
    assert_eq!(None, log.query_persistance(JohnQuery::ClearQuery("r".to_string()), 1));
    log.enqueue(clear("r"));
    assert_eq!(Some(2), log.query_persistance(JohnQuery::ClearQuery("r".to_string()), 1));
}

#[test]
fn query_for_a_discarded_command_is_never_answered() {
    let mut log = JohnReplicationLog::new();
    let mut rivers = Rivers::new();
    log.enqueue(push("r", "kept"));
    log.enqueue(push("r", "lost"));
    assert_eq!(
        Some(1),
        log.query_persistance(JohnQuery::PushQuery("r".to_string(), "kept".to_string()), 1)
    );
    assert_eq!(
        Some(2),
        log.query_persistance(JohnQuery::PushQuery("r".to_string(), "lost".to_string()), 2)
    );
    log.discard_downto(1).unwrap();
    log.enqueue(push("r", "instead"));
    log.commit_upto(2).unwrap();
    let handed = log.apply_committed(&mut rivers);
    assert_eq!(vec![1], handed[0].respond_to);
    assert!(handed[1].respond_to.is_empty());
}

#[test]
fn too_large_push_is_applied_and_changes_nothing() {
    let mut log = JohnReplicationLog::new();
    let mut rivers = Rivers::new();
    log.enqueue(push("r", &"x".repeat(5000)));
    log.enqueue(peek("r", None));
    log.commit_upto(2).unwrap();
    let handed = log.apply_committed(&mut rivers);
    assert_eq!(2, handed.len());
    assert!(matches!(handed[0].response, JohnResponse::PushResponse));
    assert!(matches!(handed[1].response, JohnResponse::PeekResponse(None)));
    assert_eq!(0, rivers.bytes("r").unwrap().len());
}

#[test]
fn same_command_on_same_rivers_gives_the_same() {
    let mut first = Rivers::new();
    let mut second = Rivers::new();
    let commands = vec![
        push("r", "one"),
        push("r", "two"),
        peek("r", Some(1)),
        peek("r", Some(3)),
        clear("r"),
        peek("r", None),
    ];
    for command in commands.iter() {
        let a = apply(&mut first, command).unwrap();
        let b = apply(&mut second, &command.clone()).unwrap();
        assert_eq!(format!("{:?}", a), format!("{:?}", b));
        assert_eq!(first.bytes("r"), second.bytes("r"));
    }
}

#[test]
fn commands_are_compared_by_what_they_ask() {
    assert!(push("r", "m").same(&push("r", "m")));
    assert!(!push("r", "m").same(&push("r", "n")));
    assert!(!push("r", "m").same(&push("s", "m")));
    assert!(!push("r", "m").same(&clear("r")));
    assert!(peek("r", None).same(&peek("r", None)));
    assert!(!peek("r", None).same(&peek("r", Some(0))));
    assert!(peek("r", Some(2)).same(&peek("r", Some(2))));
    assert!(!peek("r", Some(2)).same(&peek("r", Some(3))));
    assert!(clear("r").same(&clear("r")));
    assert!(!clear("r").same(&clear("rr")));
    assert!(JohnQuery::PushQuery("r".to_string(), "m".to_string()).command().same(&push("r", "m")));
    assert!(JohnQuery::ClearQuery("r".to_string()).command().same(&clear("r")));
    assert!(JohnQuery::PeekQuery("r".to_string(), Some(4)).command().same(&peek("r", Some(4))));
}

fn package(index: usize) -> Package {
    Package { command: push("r", "m"), index, sender: "localhost:3000".to_string() }
}

#[test]
fn mailbox_hands_packages_on_in_order() {
    let mut mailbox = HttpIntercommunication::new();
    assert!(mailbox.is_debug());
    assert!(mailbox.receive().is_none());
    mailbox.submit(package(1));
    mailbox.submit(package(2));
    assert_eq!(1, mailbox.receive().unwrap().index);
    mailbox.submit(package(3));
    assert_eq!(2, mailbox.receive().unwrap().index);
    assert_eq!(3, mailbox.receive().unwrap().index);
    assert!(mailbox.receive().is_none());
}

#[test]
fn mailbox_takes_arrivals_once_a_node_is_registered() {
    let mut mailbox = HttpIntercommunication::new();
    assert!(!mailbox.is_registered());
    assert!(!mailbox.deliver(package(1)));
    assert!(mailbox.take_arrived().is_none());
    let endpoint = mailbox.register("localhost:3000".to_string());
    assert_eq!("localhost:3000", endpoint.host);
    assert!(mailbox.is_registered());
    assert!(mailbox.deliver(package(2)));
    mailbox.fetch_endpoint().push(package(3));
    assert_eq!(2, mailbox.take_arrived().unwrap().index);
    assert_eq!(3, mailbox.take_arrived().unwrap().index);
    assert!(mailbox.take_arrived().is_none());
    mailbox.deliver(package(4));
    mailbox.register("localhost:3000".to_string());
    assert!(mailbox.take_arrived().is_none());
}

#[test]
fn package_goes_to_the_address_of_its_recipient() {
    let mut mailbox = HttpIntercommunication::new();
    assert_eq!(
        "http://localhost:3001/raft/package",
        HttpIntercommunication::address("localhost:3001")
    );
    let outgoing = mailbox.send_if_addressable("localhost:3001".to_string(), package(7)).unwrap();
    assert_eq!("http://localhost:3001/raft/package", outgoing.url);
    assert_eq!(7, outgoing.package.index);

    let outgoing = mailbox.send("Example.COM:80".to_string(), package(8));
    assert_eq!("http://example.com/raft/package", outgoing.url);
    assert_eq!(8, outgoing.package.index);
}

#[test]
fn package_to_no_address_is_dropped() {
    let mut mailbox = HttpIntercommunication::new();
    assert!(mailbox.send_if_addressable("localhost:port".to_string(), package(1)).is_none());
    assert!(mailbox.send_if_addressable("a b".to_string(), package(1)).is_none());
    assert!(mailbox.send_if_addressable("[::1".to_string(), package(1)).is_none());
}

#[test]
fn address_is_written_as_the_parser_writes_it() {
    let mut mailbox = HttpIntercommunication::new();
    let outgoing = mailbox.send_if_addressable("[::1]:3000".to_string(), package(1)).unwrap();
    assert_eq!("http://[::1]:3000/raft/package", outgoing.url);
    let outgoing = mailbox.send_if_addressable("HOST".to_string(), package(1)).unwrap();
    assert_eq!("http://host/raft/package", outgoing.url);
}

#[test]
fn election_timeout_stays_in_its_range() {
    assert_eq!(150, john::raft::election_timeout(0));
    assert_eq!(299, john::raft::election_timeout(149));
    assert_eq!(150, john::raft::election_timeout(150));
    assert_eq!(151, john::raft::election_timeout(-1));
    assert_eq!(299, john::raft::election_timeout(-149));
    assert_eq!(158, john::raft::election_timeout(i64::MIN));
    assert_eq!(157, john::raft::election_timeout(i64::MAX));
}
