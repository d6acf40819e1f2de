use stegshare::carrier::{b64_encode, encode_access_rights, hide_payload, png_encode, reveal_alpha,
    Image};
use stegshare::peer::{respond_to_request, route_peer_message, ListenerRoute, PeerMessage,
    RequesterAction, RequesterEvent, RequesterExchange, ResponderAction};
use stegshare::rights::{RightsStore, StoreError, ViewOutcome};

fn flat_image(width: u32, height: u32, byte: u8) -> Image {
    Image { width, height, pixels: vec![byte; (width * height * 4) as usize] }
}

/// Merging views adds exactly the delta, starting from zero.
#[test]
fn add_views_merges_by_addition() {
    let mut store = RightsStore::new();
    let id = "client7-cat".to_string();
    assert_eq!(store.get_views(&id), None);
    store.add_views(&id, 3);
    assert_eq!(store.get_views(&id), Some(3));
    store.add_views(&id, 2);
    assert_eq!(store.get_views(&id), Some(5));
}

/// View consumption: one view left reveals the image and leaves zero; the
/// next attempt has no rights, and the entry stays.
#[test]
fn consume_view_decrements_exactly_while_positive() {
    let mut store = RightsStore::new();
    let id = "client7-cat".to_string();
    store.add_views(&id, 1);
    match store.consume_view(&id) {
        ViewOutcome::Revealed => {},
        ViewOutcome::NoRights => panic!("one view was left"),
    }
    assert_eq!(store.get_views(&id), Some(0));
    match store.consume_view(&id) {
        ViewOutcome::NoRights => {},
        ViewOutcome::Revealed => panic!("no views were left"),
    }
    assert_eq!(store.get_views(&id), Some(0));
}

#[test]
fn consume_view_on_unknown_image_has_no_rights() {
    let mut store = RightsStore::new();
    match store.consume_view(&"nothing".to_string()) {
        ViewOutcome::NoRights => {},
        ViewOutcome::Revealed => panic!("nothing stored"),
    }
}

#[test]
fn increase_views_response_merges_only_approvals() {
    let mut store = RightsStore::new();
    let id = "client7-cat".to_string();
    store.handle_increase_views_response(&id, 4, true);
    assert_eq!(store.get_views(&id), Some(4));
    store.handle_increase_views_response(&id, 9, false);
    assert_eq!(store.get_views(&id), Some(4));
}

/// The peer-to-peer grant: the owner wraps its inner carrier with the
/// granted views; storing the received carrier raises the viewer's
/// remaining views by exactly that count.
#[test]
fn granted_carrier_raises_remaining_views() {
    let owner_inner = hide_payload(&flat_image(4, 4, 50), b"the cat picture");
    let action = respond_to_request(&owner_inner, &"client7-cat".to_string(), 3, true);
    let outer = match action {
        ResponderAction::SendCarrier { outer, image_id, views } => {
            assert_eq!(image_id, "client7-cat");
            assert_eq!(views, 3);
            outer
        },
        ResponderAction::SendRejection { .. } => panic!("the request was approved"),
    };

    let mut store = RightsStore::new();
    let id = "client7-cat".to_string();
    let inner = store
        .store_decoded_carrier(&id, &outer)
        .expect("the outer carrier decodes");
    assert_eq!(inner.0, 3);
    assert_eq!(store.get_views(&id), Some(3));
    // The hidden payload survived the whole grant.
    let revealed = reveal_alpha(&inner.1);
    assert_eq!(&revealed[0..15], b"the cat picture");
}

/// The same grant through the wire encodings: PNG bytes inside base64 text,
/// as the chunked payload carries them.
#[test]
fn received_payload_is_decoded_and_merged() {
    let owner_inner = flat_image(4, 2, 80);
    let outer = encode_access_rights(&owner_inner, 2);
    let data_b64 = b64_encode(&png_encode(&outer));

    let mut store = RightsStore::new();
    let id = "client7-cat".to_string();
    store.add_views(&id, 1);
    let inner = store
        .store_received_payload(&id, &data_b64)
        .expect("the payload decodes");
    assert_eq!(store.get_views(&id), Some(3));
    assert_eq!(inner.width, 4);
    assert_eq!(inner.height, 2);
    assert_eq!(inner.pixels, owner_inner.pixels);
}

#[test]
fn store_rejects_what_is_not_a_carrier() {
    let mut store = RightsStore::new();
    let id = "client7-cat".to_string();
    match store.store_received_payload(&id, "*** not base64 ***") {
        Err(StoreError::NotBase64) => {},
        _ => panic!("the text is not base64"),
    }
    match store.store_received_payload(&id, &b64_encode(b"not a png")) {
        Err(StoreError::NotPng) => {},
        _ => panic!("the bytes are not a PNG image"),
    }
    assert_eq!(store.get_views(&id), None);
}

#[test]
fn store_rejects_a_grant_that_would_overflow_the_counter() {
    let mut store = RightsStore::new();
    let id = "client7-cat".to_string();
    store.add_views(&id, u32::MAX);
    let outer = encode_access_rights(&flat_image(2, 1, 0), 1);
    let data_b64 = b64_encode(&png_encode(&outer));
    match store.store_received_payload(&id, &data_b64) {
        Err(StoreError::TooManyViews) => {},
        _ => panic!("the counter would overflow"),
    }
    assert_eq!(store.get_views(&id), Some(u32::MAX));
}

#[test]
fn rejection_path_acknowledges_and_ends_with_zero_views() {
    let owner_inner = flat_image(2, 2, 0);
    match respond_to_request(&owner_inner, &"client7-cat".to_string(), 3, false) {
        ResponderAction::SendRejection { image_id, views } => {
            assert_eq!(image_id, "client7-cat");
            assert_eq!(views, 3);
        },
        ResponderAction::SendCarrier { .. } => panic!("the request was rejected"),
    }
    // Rejecting never touches the carrier, so even one too narrow to wrap
    // is rejected normally.
    match respond_to_request(&flat_image(1, 1, 0), &"client7-cat".to_string(), 3, false) {
        ResponderAction::SendRejection { .. } => {},
        ResponderAction::SendCarrier { .. } => panic!("the request was rejected"),
    }

    let mut exchange = RequesterExchange::new("client7-cat".to_string(), 3);
    exchange.start("9".to_string());
    match exchange.on_event(&RequesterEvent::RejectionReceived) {
        RequesterAction::SendRejectionAck { image_id } => assert_eq!(image_id, "client7-cat"),
        _ => panic!("a rejection is acknowledged"),
    }
    // Later events change nothing.
    match exchange.on_event(&RequesterEvent::TimedOut) {
        RequesterAction::Stay => {},
        _ => panic!("the exchange already ended"),
    }
}

#[test]
fn requester_times_out_without_a_reply() {
    let mut exchange = RequesterExchange::new("client7-cat".to_string(), 3);
    match exchange.start("9".to_string()) {
        RequesterAction::SendImageRequest { requesting_client_id, image_id, views } => {
            assert_eq!(requesting_client_id, "9");
            assert_eq!(image_id, "client7-cat");
            assert_eq!(views, 3);
        },
        _ => panic!("starting sends the request"),
    }
    match exchange.on_event(&RequesterEvent::TimedOut) {
        RequesterAction::Stay => {},
        _ => panic!("a timeout sends nothing"),
    }
}

#[test]
fn listener_routes_grant_replies_to_the_store() {
    let approved = PeerMessage::IncreaseApproved { image_id: "client7-cat".to_string(), views: 2 };
    match route_peer_message(approved) {
        ListenerRoute::RightsStoreUpdate { image_id, views, approved } => {
            assert_eq!(image_id, "client7-cat");
            assert_eq!(views, 2);
            assert!(approved);
        },
        _ => panic!("grant replies go to the store"),
    }
    let request = PeerMessage::ImageRequest {
        requesting_client_id: "9".to_string(),
        image_id: "client7-cat".to_string(),
        views: 3,
    };
    match route_peer_message(request) {
        ListenerRoute::UserQueue { .. } => {},
        _ => panic!("requests wait for the user"),
    }
}
