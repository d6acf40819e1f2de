use stegshare::carrier::{hide_payload, png_decode, png_encode, reveal_alpha, Image};
use stegshare::directory::Directory;
use stegshare::dispatch::{handle_client_request, parse_upload_triplet, ClientRequest, Reply};
use stegshare::peer::{grant_follow_up, GrantFollowUp};

/// Registration: the reply carries a fresh integer user id and the new
/// client record is up.
#[test]
fn register_creates_an_up_client() {
    let mut dir = Directory::new(1);
    let src = "192.168.0.9:40001".to_string();
    let reply = handle_client_request(
        &mut dir,
        &src,
        ClientRequest::Register { random_number: 42 },
    );
    match reply {
        Reply::RegisterOk { user_id } => assert_eq!(user_id, 1),
        _ => panic!("registration succeeds"),
    }
    assert_eq!(dir.clients.len(), 1);
    assert_eq!(dir.clients[0].client_id, 1);
    assert!(dir.clients[0].is_up);
    assert_eq!(dir.clients[0].addr, src);
}

#[test]
fn resource_upsert_is_idempotent() {
    let mut dir = Directory::new(1);
    dir.register_user(&"10.0.0.7:1000".to_string());
    dir.insert_into_resources(7, &"client7-cat".to_string());
    dir.insert_into_resources(7, &"client7-cat".to_string());
    assert_eq!(dir.resources.len(), 1);
    assert_eq!(dir.resources[0].client_id, 7);
    assert_eq!(dir.resources[0].image_id, "client7-cat");
}

#[test]
fn active_users_excludes_caller_and_down_clients() {
    let mut dir = Directory::new(1);
    let a = dir.register_user(&"10.0.0.1:1000".to_string());
    let b = dir.register_user(&"10.0.0.2:1000".to_string());
    let c = dir.register_user(&"10.0.0.3:1000".to_string());
    dir.insert_into_resources(b, &"client2-dog".to_string());
    dir.insert_into_resources(b, &"client2-owl".to_string());
    dir.shutdown_client(c);
    let reply = handle_client_request(
        &mut dir,
        &"10.0.0.1".to_string(),
        ClientRequest::ActiveUsers { user_id: a },
    );
    match reply {
        Reply::ActiveUsersOk { data } => {
            assert_eq!(data.len(), 1);
            assert_eq!(data[0].0, b);
            assert_eq!(data[0].1, "10.0.0.2:1000");
            assert_eq!(data[0].2, vec!["client2-dog".to_string(), "client2-owl".to_string()]);
        },
        _ => panic!("active_users succeeds"),
    }
}

#[test]
fn sign_in_with_unknown_id_fails() {
    let mut dir = Directory::new(1);
    let reply = handle_client_request(
        &mut dir,
        &"10.0.0.5".to_string(),
        ClientRequest::SignIn { user_id: 99, p2p_port: 41000 },
    );
    match reply {
        Reply::Failure { .. } => {},
        _ => panic!("an unknown id cannot sign in"),
    }
}

/// Offline grant forwarding end to end: the owner's unacknowledged approval
/// becomes a change-view request, the directory queues it and marks the
/// viewer down, and the viewer's next sign-in delivers it exactly once.
#[test]
fn offline_grant_is_forwarded_and_drained_once() {
    let mut dir = Directory::new(7);
    let viewer = dir.register_user(&"10.0.0.9:41000".to_string());

    // The owner approved two extra views but the viewer never acknowledged.
    let follow_up = grant_follow_up(
        &"10.0.0.9:41000".to_string(),
        &"client7-cat".to_string(),
        2,
        true,
        false,
    );
    let (peer_address, image_id, requested_views) = match follow_up {
        GrantFollowUp::ForwardChangeView { peer_address, image_id, requested_views } => (
            peer_address,
            image_id,
            requested_views,
        ),
        GrantFollowUp::Done => panic!("an unacknowledged approval is forwarded"),
    };
    assert_eq!(requested_views, 2);

    let reply = handle_client_request(
        &mut dir,
        &"10.0.0.4".to_string(),
        ClientRequest::ChangeView { peer_address, image_id, requested_views },
    );
    match reply {
        Reply::ChangeViewOk => {},
        _ => panic!("change-view succeeds for a known viewer address"),
    }
    assert!(!dir.clients[0].is_up);
    assert_eq!(dir.pending.len(), 1);

    // The viewer signs back in: the queued grant rides along, once.
    let reply = handle_client_request(
        &mut dir,
        &"10.0.0.9".to_string(),
        ClientRequest::SignIn { user_id: viewer, p2p_port: 41500 },
    );
    match reply {
        Reply::SignInOk { resources } => {
            assert_eq!(resources.len(), 1);
            assert_eq!(resources[0].0, "client7-cat");
            assert_eq!(resources[0].1, 2);
        },
        _ => panic!("sign-in succeeds"),
    }
    assert!(dir.clients[0].is_up);
    assert_eq!(dir.clients[0].addr, "10.0.0.9:41500");

    // A second sign-in finds nothing queued.
    let reply = handle_client_request(
        &mut dir,
        &"10.0.0.9".to_string(),
        ClientRequest::SignIn { user_id: viewer, p2p_port: 41500 },
    );
    match reply {
        Reply::SignInOk { resources } => assert_eq!(resources.len(), 0),
        _ => panic!("sign-in succeeds"),
    }
}

#[test]
fn acknowledged_or_rejected_grants_are_not_forwarded() {
    let addr = "10.0.0.9:41000".to_string();
    let img = "client7-cat".to_string();
    match grant_follow_up(&addr, &img, 2, true, true) {
        GrantFollowUp::Done => {},
        _ => panic!("an acknowledged approval ends the exchange"),
    }
    match grant_follow_up(&addr, &img, 2, false, false) {
        GrantFollowUp::Done => {},
        _ => panic!("a rejection is dropped silently"),
    }
}

#[test]
fn change_view_for_unknown_address_fails() {
    let mut dir = Directory::new(1);
    let reply = handle_client_request(
        &mut dir,
        &"10.0.0.4".to_string(),
        ClientRequest::ChangeView {
            peer_address: "10.9.9.9:1".to_string(),
            image_id: "client7-cat".to_string(),
            requested_views: 2,
        },
    );
    match reply {
        Reply::Failure { .. } => {},
        _ => panic!("no client carries the address"),
    }
    assert_eq!(dir.pending.len(), 0);
}

#[test]
fn shutdown_marks_the_client_down() {
    let mut dir = Directory::new(1);
    let id = dir.register_user(&"10.0.0.1:1000".to_string());
    let reply = handle_client_request(
        &mut dir,
        &"10.0.0.1".to_string(),
        ClientRequest::Shutdown { user_id: id },
    );
    match reply {
        Reply::ShutdownOk => {},
        _ => panic!("shutdown succeeds"),
    }
    assert!(!dir.clients[0].is_up);
}

/// Upload and retrieve: the triplet names the resource, the server hides the
/// uploaded bytes in its cover and returns a PNG carrier whose revealed
/// bytes are the upload, and the directory records the resource.
#[test]
fn upload_and_retrieve_round_trip() {
    let (client_id, image_id, nonce) =
        parse_upload_triplet("7,client7-cat,42").expect("the triplet is well-formed");
    assert_eq!(client_id, 7);
    assert_eq!(nonce, "42");

    let uploaded = b"the bytes of cat.jpg";
    let cover = Image { width: 8, height: 8, pixels: vec![120u8; 8 * 8 * 4] };
    let carrier = hide_payload(&cover, uploaded);
    let carrier_png = png_encode(&carrier);

    // What the client gets back decodes to a carrier revealing the upload.
    let received = png_decode(&carrier_png).expect("the reply is a PNG image");
    let revealed = reveal_alpha(&received);
    assert_eq!(&revealed[0..uploaded.len()], uploaded);

    let mut dir = Directory::new(1);
    dir.insert_into_resources(client_id, &image_id);
    assert_eq!(dir.resources.len(), 1);
    assert_eq!(dir.resources[0].client_id, 7);
    assert_eq!(dir.resources[0].image_id, "client7-cat");
}
