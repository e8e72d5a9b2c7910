use protohacker_in_rust::acstor::{
    Event, Planner, PlannerMessage, Recipient, Workload, WorkloadConfig, WorkloadMessage,
};
use protohacker_in_rust::error::Error;
use protohacker_in_rust::maelstrom::node::IdGenerator;
use protohacker_in_rust::protohackers::problem3::{OutgoingMessage, Username};

#[test]
fn ids_count_up_from_one() {
    let mut ids = IdGenerator::new();
    assert_eq!(ids.issued(), 0);
    assert_eq!(ids.next_id("n1"), "n1-1");
    assert_eq!(ids.issued(), 1);
    assert_eq!(ids.next_id("n1"), "n1-2");
    assert_eq!(ids.next_id("other"), "other-3");
    for _ in 3..9 {
        ids.next_id("n1");
    }
    assert_eq!(ids.next_id(""), "-10");
}

#[test]
fn usernames_are_printable_ascii_of_one_to_sixteen_bytes() {
    assert_eq!(Username::parse("alice").unwrap().as_str(), "alice");
    assert_eq!(Username::parse("a").unwrap().as_str(), "a");
    assert_eq!(
        Username::parse("sixteen  letters").unwrap().as_str(),
        "sixteen  letters"
    );
    assert_eq!(Username::parse(" ~").unwrap().as_str(), " ~");
    assert_eq!(Username::parse("").err(), Some(Error::EmptyUsername));
    assert_eq!(
        Username::parse("seventeen letters").err(),
        Some(Error::UsernameTooLong)
    );
    assert_eq!(
        Username::parse("tab\there").err(),
        Some(Error::UsernameNotPrintable)
    );
    assert_eq!(
        Username::parse("caf\u{e9}").err(),
        Some(Error::UsernameNotPrintable)
    );
    assert_eq!(
        Username::parse("del\u{7f}").err(),
        Some(Error::UsernameNotPrintable)
    );
    // length is looked at first, and counted in bytes
    assert_eq!(
        Username::parse("\u{e9}\u{e9}\u{e9}\u{e9}\u{e9}\u{e9}\u{e9}\u{e9}\u{e9}").err(),
        Some(Error::UsernameTooLong)
    );
}

#[test]
fn room_messages_read_as_lines() {
    let alice = Username::parse("alice").unwrap();
    let bob = Username::parse("bob").unwrap();
    let carol = Username::parse("carol").unwrap();
    assert_eq!(
        OutgoingMessage::Welcome.to_text(),
        "Welcome to budgetchat! What shall I call you?"
    );
    assert_eq!(
        OutgoingMessage::UserJoin(alice.clone()).to_text(),
        "* alice has entered the room"
    );
    assert_eq!(
        OutgoingMessage::UserLeave(bob.clone()).to_text(),
        "* bob has left the room"
    );
    assert_eq!(
        OutgoingMessage::Chat {
            from: alice.clone(),
            text: "Hi bob!".to_string()
        }
        .to_text(),
        "[alice] Hi bob!"
    );
    assert_eq!(
        OutgoingMessage::InvalidUsername("no way".to_string()).to_text(),
        "Invalid username no way"
    );
    assert_eq!(
        OutgoingMessage::Participants(vec![]).to_text(),
        "* The room contains: "
    );
    assert_eq!(
        OutgoingMessage::Participants(vec![bob.clone()]).to_text(),
        "* The room contains: bob"
    );
    let all = vec![alice, bob, carol];
    assert_eq!(
        OutgoingMessage::Welcome.participants(&all),
        "alice, bob, carol"
    );
    assert_eq!(
        OutgoingMessage::Participants(all).to_text(),
        "* The room contains: alice, bob, carol"
    );
}

#[test]
fn the_planner_takes_turns() {
    let mut planner = Planner::new();
    assert_eq!(planner.planned_so_far(), 0);
    for _ in 0..3 {
        assert!(matches!(planner.next_event(), PlannerMessage::DoA));
        assert!(matches!(planner.next_event(), PlannerMessage::DoB));
        assert!(matches!(planner.next_event(), PlannerMessage::Hello));
    }
}

#[test]
fn the_workload_ticks_within_its_limit() {
    let config = WorkloadConfig::default();
    assert_eq!(config.ticker_interval_ms, 3000);
    assert_eq!(config.max_events, None);

    let mut free = Workload::new(config);
    for n in 0..5 {
        assert_eq!(free.ticks(), n);
        assert!(matches!(
            free.handle_planner_event(PlannerMessage::Hello),
            Some((Recipient::Workload, Event::Workload(WorkloadMessage::Tick)))
        ));
    }

    let mut limited = Workload::new(WorkloadConfig {
        ticker_interval_ms: 10,
        max_events: Some(2),
    });
    assert!(limited
        .handle_planner_event(PlannerMessage::Hello)
        .is_some());
    assert!(matches!(
        limited.handle_planner_event(PlannerMessage::DoA),
        Some((Recipient::Planner, Event::Workload(WorkloadMessage::Tick)))
    ));
    assert_eq!(limited.ticks(), 1);
    assert!(limited.handle_planner_event(PlannerMessage::DoB).is_none());
    assert!(limited.handle_planner_event(PlannerMessage::Stop).is_none());
    assert!(limited
        .handle_planner_event(PlannerMessage::Hello)
        .is_some());
    assert!(limited
        .handle_planner_event(PlannerMessage::Hello)
        .is_none());
    assert!(limited.handle_planner_event(PlannerMessage::DoA).is_some());
}
