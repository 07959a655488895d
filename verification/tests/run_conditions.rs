use renet2_netcode::{
    client_connected, client_connecting, client_disconnected, client_just_connected,
    client_just_disconnected, client_should_update, ClientStatus,
};

#[test]
fn connected_only_when_a_connected_client_exists() {
    assert!(client_connected(Some(ClientStatus::Connected)));
    assert!(!client_connected(Some(ClientStatus::Connecting)));
    assert!(!client_connected(Some(ClientStatus::Disconnected)));
    assert!(!client_connected(None));
}

#[test]
fn disconnected_when_no_client_or_disconnected() {
    assert!(client_disconnected(None));
    assert!(client_disconnected(Some(ClientStatus::Disconnected)));
    assert!(!client_disconnected(Some(ClientStatus::Connected)));
    assert!(!client_disconnected(Some(ClientStatus::Connecting)));
}

#[test]
fn connecting_only_when_a_connecting_client_exists() {
    assert!(client_connecting(Some(ClientStatus::Connecting)));
    assert!(!client_connecting(Some(ClientStatus::Connected)));
    assert!(!client_connecting(None));
}

#[test]
fn just_connected_fires_on_the_rising_edge_only() {
    let mut last = false;
    assert!(!client_just_connected(&mut last, None));
    assert!(!client_just_connected(&mut last, Some(ClientStatus::Connecting)));
    assert!(client_just_connected(&mut last, Some(ClientStatus::Connected)));
    assert!(last);
    assert!(!client_just_connected(&mut last, Some(ClientStatus::Connected)));
    assert!(!client_just_connected(&mut last, Some(ClientStatus::Disconnected)));
    assert!(!last);
    assert!(client_just_connected(&mut last, Some(ClientStatus::Connected)));
}

#[test]
fn just_disconnected_fires_on_the_falling_edge_only() {
    let mut last = false;
    assert!(!client_just_disconnected(&mut last, None));
    assert!(!client_just_disconnected(&mut last, Some(ClientStatus::Connecting)));
    assert!(last);
    assert!(client_just_disconnected(&mut last, Some(ClientStatus::Disconnected)));
    assert!(!last);
    assert!(!client_just_disconnected(&mut last, Some(ClientStatus::Disconnected)));
    assert!(!client_just_disconnected(&mut last, Some(ClientStatus::Connected)));
    assert!(client_just_disconnected(&mut last, None));
}

#[test]
fn should_update_while_not_disconnected_and_once_after() {
    let mut cond = client_should_update();
    assert!(!cond.run(None));
    assert!(cond.run(Some(ClientStatus::Connecting)));
    assert!(cond.run(Some(ClientStatus::Connected)));
    assert!(cond.run(Some(ClientStatus::Disconnected)));
    assert!(!cond.run(Some(ClientStatus::Disconnected)));
    assert!(cond.run(Some(ClientStatus::Connected)));
}

#[test]
fn should_update_never_without_a_client() {
    let mut cond = client_should_update();
    assert!(cond.run(Some(ClientStatus::Connected)));
    // The client disappears: just disconnected, but no client exists.
    assert!(!cond.run(None));
    assert!(!cond.run(None));
}
