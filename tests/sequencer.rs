use calvinite::sequencer::PendingReplies;

#[test]
fn only_the_accepting_node_answers() {
    let mut here: PendingReplies<&str> = PendingReplies::new();
    here.register(1, "client one");
    assert_eq!(here.take(2), None);
    assert_eq!(here.take(1), Some("client one"));
    assert_eq!(here.take(1), None);
}
