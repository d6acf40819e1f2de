//! The server request dispatcher: classifies a client's request, derives the
//! deterministic request id that the election correlates on, and runs the
//! directory operation the request asks for. Reading datagrams, JSON
//! framing, and replying on sockets happen outside the library; this module
//! takes the classified request and hands back the typed reply.

use vstd::prelude::*;
use vstd::string::StrSliceExecFns;

use crate::directory::{images_of, pending_for, pending_without, strings_view, up_peers,
    ClientRecord, Directory, DirectoryError, PendingRightsRecord};
use crate::encoding::{bytes_hex_chars, bytes_to_hex_str, dec_chars, u64_to_dec_str};

verus! {

// --- decimal fields -------------------------------------------------------------

/// Every character is a decimal digit.
pub open spec fn is_digits(s: Seq<char>) -> bool {
    forall|i: int| 0 <= i < s.len() ==> 48 <= #[trigger] (s[i] as u32) <= 57
}

/// The value of a digit string, most significant digit first.
pub open spec fn dec_value(s: Seq<char>) -> int
    decreases s.len(),
{
    if s.len() == 0 {
        0
    } else {
        dec_value(s.drop_last()) * 10 + (s.last() as u32 - 48)
    }
}

proof fn lemma_dec_value_nonneg(s: Seq<char>)
    requires
        is_digits(s),
    ensures
        dec_value(s) >= 0,
    decreases s.len(),
{
    if s.len() > 0 {
        assert(is_digits(s.drop_last())) by {
            assert(forall|i: int| 0 <= i < s.len() - 1 ==> s.drop_last()[i] == s[i]);
        }
        lemma_dec_value_nonneg(s.drop_last());
    }
}

/// A digit string is worth at least any of its prefixes.
proof fn lemma_dec_value_monotone(s: Seq<char>, k: int)
    requires
        is_digits(s),
        0 <= k <= s.len(),
    ensures
        dec_value(s.subrange(0, k)) <= dec_value(s),
    decreases s.len() - k,
{
    if k < s.len() {
        lemma_dec_value_monotone(s, k + 1);
        let pre = s.subrange(0, k);
        let post = s.subrange(0, k + 1);
        assert(post.drop_last() =~= pre);
        assert(is_digits(pre)) by {
            assert(forall|i: int| 0 <= i < k ==> pre[i] == s[i]);
        }
        lemma_dec_value_nonneg(pre);
        assert(48 <= post.last() as u32 <= 57);
    } else {
        assert(s.subrange(0, k) =~= s);
    }
}

/// Parses a decimal `u64`: succeeds exactly on a nonempty all-digit string
/// whose value fits.
pub fn parse_decimal(s: &str) -> (r: Option<u64>)
    ensures
        (s@.len() > 0 && is_digits(s@) && dec_value(s@) <= u64::MAX) ==> r == Some(
            dec_value(s@) as u64,
        ),
        (s@.len() == 0 || !is_digits(s@) || dec_value(s@) > u64::MAX) ==> r is None,
{
    let n = s.unicode_len();
    if n == 0 {
        return None;
    }
    let mut acc: u64 = 0;
    let mut k: usize = 0;
    proof {
        assert(s@.subrange(0, 0) =~= Seq::<char>::empty());
    }
    while k < n
        invariant
            k <= n,
            n == s@.len(),
            is_digits(s@.subrange(0, k as int)),
            acc == dec_value(s@.subrange(0, k as int)),
        decreases n - k,
    {
        let c = s.get_char(k) as u32;
        if c < 48 || c > 57 {
            proof {
                assert(s@[k as int] as u32 == c);
                assert(!is_digits(s@));
            }
            return None;
        }
        let d = (c - 48) as u64;
        proof {
            assert(s@.subrange(0, k + 1).drop_last() =~= s@.subrange(0, k as int));
            assert(s@.subrange(0, k + 1).last() == s@[k as int]);
            assert(is_digits(s@.subrange(0, k + 1))) by {
                assert(forall|i: int|
                    0 <= i < k + 1 ==> s@.subrange(0, k + 1)[i] == s@.subrange(0, k as int).push(
                        s@[k as int],
                    )[i]);
            }
        }
        if acc > (u64::MAX - d) / 10 {
            proof {
                assert(acc * 10 + d > u64::MAX);
                assert(dec_value(s@.subrange(0, k + 1)) > u64::MAX);
                if is_digits(s@) {
                    lemma_dec_value_monotone(s@, k + 1);
                }
            }
            return None;
        }
        proof {
            assert(acc * 10 + d <= u64::MAX);
        }
        acc = acc * 10 + d;
        k += 1;
    }
    proof {
        assert(s@.subrange(0, n as int) =~= s@);
    }
    Some(acc)
}

// --- the upload triplet -----------------------------------------------------------

/// The position of the first comma, or -1.
pub open spec fn first_comma(s: Seq<char>) -> int
    decreases s.len(),
{
    if s.len() == 0 {
        -1
    } else if s[0] as u32 == 44 {
        0
    } else {
        let r = first_comma(s.drop_first());
        if r < 0 {
            -1
        } else {
            r + 1
        }
    }
}

proof fn lemma_first_comma_at(s: Seq<char>, p: int)
    requires
        0 <= p < s.len(),
        s[p] as u32 == 44,
        forall|j: int| 0 <= j < p ==> (#[trigger] s[j] as u32) != 44,
    ensures
        first_comma(s) == p,
    decreases p,
{
    if p > 0 {
        lemma_first_comma_at(s.drop_first(), p - 1);
    }
}

proof fn lemma_first_comma_none(s: Seq<char>)
    requires
        forall|j: int| 0 <= j < s.len() ==> (#[trigger] s[j] as u32) != 44,
    ensures
        first_comma(s) == -1,
    decreases s.len(),
{
    if s.len() > 0 {
        lemma_first_comma_none(s.drop_first());
    }
}

/// What the upload triplet `client_id,image_id,nonce` denotes: the fields at
/// the first two commas, `None` when a comma is missing or the id is not a
/// `u64`.
pub open spec fn parse_triplet_spec(s: Seq<char>) -> Option<(u64, Seq<char>, Seq<char>)> {
    let p1 = first_comma(s);
    if p1 < 0 {
        None
    } else {
        let rest = s.subrange(p1 + 1, s.len() as int);
        let q = first_comma(rest);
        if q < 0 {
            None
        } else {
            let f1 = s.subrange(0, p1);
            if f1.len() == 0 || !is_digits(f1) || dec_value(f1) > u64::MAX {
                None
            } else {
                Some(
                    (
                        dec_value(f1) as u64,
                        rest.subrange(0, q),
                        rest.subrange(q + 1, rest.len() as int),
                    ),
                )
            }
        }
    }
}

/// The position of the first comma at or after `from`, if any.
fn find_comma(s: &str, from: usize) -> (r: Option<usize>)
    requires
        from <= s@.len(),
    ensures
        r matches Some(p) ==> from <= p < s@.len() && s@[p as int] as u32 == 44 && forall|j: int|
            from <= j < p ==> (#[trigger] s@[j] as u32) != 44,
        r is None ==> forall|j: int| from <= j < s@.len() ==> (#[trigger] s@[j] as u32) != 44,
{
    let n = s.unicode_len();
    let mut i: usize = from;
    while i < n
        invariant
            from <= i <= n,
            n == s@.len(),
            forall|j: int| from <= j < i ==> (#[trigger] s@[j] as u32) != 44,
        decreases n - i,
    {
        if s.get_char(i) as u32 == 44 {
            return Some(i);
        }
        i += 1;
    }
    None
}

/// Parses the upload triplet `client_id,image_id,nonce`. Succeeds exactly
/// when two commas are present and the first field is a nonempty decimal
/// `u64`; the nonce is everything after the second comma.
pub fn parse_upload_triplet(s: &str) -> (r: Option<(u64, String, String)>)
    ensures
        parse_triplet_spec(s@) matches Some(t) ==> (r matches Some(e) && e.0 == t.0 && e.1@ == t.1
            && e.2@ == t.2),
        parse_triplet_spec(s@) is None ==> r is None,
{
    let n = s.unicode_len();
    let p1 = match find_comma(s, 0) {
        Some(p) => p,
        None => {
            proof {
                lemma_first_comma_none(s@);
            }
            return None;
        },
    };
    proof {
        lemma_first_comma_at(s@, p1 as int);
    }
    let ghost rest = s@.subrange(p1 + 1, s@.len() as int);
    let p2 = match find_comma(s, p1 + 1) {
        Some(p) => p,
        None => {
            proof {
                assert forall|j: int| 0 <= j < rest.len() implies (#[trigger] rest[j] as u32)
                    != 44 by {
                    assert(rest[j] == s@[p1 + 1 + j]);
                }
                lemma_first_comma_none(rest);
            }
            return None;
        },
    };
    proof {
        assert forall|j: int| 0 <= j < p2 - p1 - 1 implies (#[trigger] rest[j] as u32) != 44 by {
            assert(rest[j] == s@[p1 + 1 + j]);
        }
        assert(rest[p2 - p1 - 1] == s@[p2 as int]);
        lemma_first_comma_at(rest, p2 - p1 - 1);
    }
    let f1 = s.substring_char(0, p1);
    let cid = match parse_decimal(f1) {
        Some(v) => v,
        None => {
            return None;
        },
    };
    let image_id = s.substring_char(p1 + 1, p2).to_owned();
    let nonce = s.substring_char(p2 + 1, n).to_owned();
    proof {
        assert(image_id@ =~= rest.subrange(0, p2 - p1 - 1));
        assert(nonce@ =~= rest.subrange(p2 - p1 - 1 + 1, rest.len() as int));
    }
    Some((cid, image_id, nonce))
}

// --- the request id ----------------------------------------------------------------

/// The MD5 digest of the bytes: sixteen bytes, a function of the input
/// alone.
pub uninterp spec fn md5_of(data: Seq<u8>) -> Seq<u8>;

/// Relies on md5's `compute`: the 128-bit digest is deterministic in the
/// input bytes.
#[verifier::external_body]
fn md5_digest(data: &[u8]) -> (r: Vec<u8>)
    ensures
        r@ == md5_of(data@),
        r@.len() == 16,
{
    md5::compute(data).0.to_vec()
}

/// The request id every server derives from the same client datagram:
/// `{ip}-{port}-{digest}{nonce}`, with the payload's MD5 digest in
/// hexadecimal. A function of the datagram alone.
pub open spec fn request_id_chars(ip: Seq<char>, port: u16, payload: Seq<u8>, nonce: Seq<char>)
    -> Seq<char> {
    ip + seq!['-'] + dec_chars(port as nat) + seq!['-'] + bytes_hex_chars(md5_of(payload)) + nonce
}

/// Builds the request id for a client datagram.
pub fn make_request_id(ip: &str, port: u16, payload: &[u8], nonce: &str) -> (r: String)
    ensures
        r@ =~= request_id_chars(ip@, port, payload@, nonce@),
{
    proof {
        reveal_strlit("-");
    }
    let mut r = ip.to_owned();
    r.append("-");
    let port_str = u64_to_dec_str(port as u64);
    r.append(port_str.as_str());
    r.append("-");
    let digest = md5_digest(payload);
    let digest_str = bytes_to_hex_str(digest.as_slice());
    r.append(digest_str.as_str());
    r.append(nonce);
    r
}

/// Request-id determinism: two servers deriving the id from the same
/// datagram, byte for byte, derive the same id — the id is a function of
/// the datagram alone, so `make_request_id` returns it at every server.
pub proof fn lemma_request_id_deterministic(
    ip: Seq<char>,
    port: u16,
    payload: Seq<u8>,
    nonce: Seq<char>,
    r1: Seq<char>,
    r2: Seq<char>,
)
    requires
        r1 == request_id_chars(ip, port, payload, nonce),
        r2 == request_id_chars(ip, port, payload, nonce),
    ensures
        r1 == r2,
{
}

// --- the dispatcher -----------------------------------------------------------------

/// A classified client request, as the dispatcher sees it after the JSON or
/// triplet framing is off.
pub enum ClientRequest {
    /// `register`: create a client record for the sender.
    Register { random_number: u64 },
    /// `sign_in`: the sender's id and the port its peer socket listens on.
    SignIn { user_id: u64, p2p_port: u16 },
    /// `active_users`: the up clients other than the sender.
    ActiveUsers { user_id: u64 },
    /// `shutdown`: mark the sender down.
    Shutdown { user_id: u64 },
    /// `change-view`: queue rights for an offline viewer and mark it down.
    ChangeView { peer_address: String, image_id: String, requested_views: u16 },
}

/// The dispatcher's typed reply; the caller frames it as JSON.
pub enum Reply {
    RegisterOk { user_id: u64 },
    SignInOk { resources: Vec<(String, u32)> },
    ActiveUsersOk { data: Vec<(u64, String, Vec<String>)> },
    ShutdownOk,
    ChangeViewOk,
    Failure { error: DirectoryError },
}

/// The address a signing-in client registers: the source ip with the peer
/// port from the payload.
pub open spec fn composed_addr(src_ip: Seq<char>, p2p_port: u16) -> Seq<char> {
    src_ip + seq![':'] + dec_chars(p2p_port as nat)
}

/// Joins an ip and a port into `ip:port`.
pub fn compose_addr(src_ip: &str, p2p_port: u16) -> (r: String)
    ensures
        r@ =~= composed_addr(src_ip@, p2p_port),
{
    proof {
        reveal_strlit(":");
    }
    let mut r = src_ip.to_owned();
    r.append(":");
    let port_str = u64_to_dec_str(p2p_port as u64);
    r.append(port_str.as_str());
    r
}

/// Runs one classified request against the directory and returns the typed
/// reply. The caller has already won the election for this request.
pub fn handle_client_request(dir: &mut Directory, src_ip: &String, req: ClientRequest) -> (r:
    Reply)
    requires
        old(dir).wf(),
        req is Register ==> old(dir).next_client_id < u64::MAX,
    ensures
        final(dir).wf(),
        req matches ClientRequest::Register { random_number } ==> (r matches Reply::RegisterOk {
            user_id,
        } && user_id == old(dir).next_client_id && final(dir).clients@ =~= old(dir).clients@.push(
            (ClientRecord { client_id: user_id, addr: *src_ip, is_up: true }),
        ) && final(dir).next_client_id == user_id + 1 && final(dir).pending == old(dir).pending
            && final(dir).resources == old(dir).resources),
        req matches ClientRequest::SignIn { user_id, p2p_port } ==> ({
            let known = exists|i: int|
                0 <= i < old(dir).clients@.len() && #[trigger] old(dir).clients@[i].client_id
                    == user_id;
            &&& (known ==> (r matches Reply::SignInOk { resources } && resources@.len()
                == pending_for(old(dir).pending@, user_id).len() && (forall|t: int|
                0 <= t < resources@.len() ==> #[trigger] resources@[t].0@ == pending_for(
                    old(dir).pending@,
                    user_id,
                )[t].image_id@ && resources@[t].1 == pending_for(old(dir).pending@, user_id)[t].views)
                && final(dir).pending@ =~= pending_without(old(dir).pending@, user_id) && (forall|
                j: int,
            |
                0 <= j < old(dir).clients@.len() && #[trigger] old(dir).clients@[j].client_id
                    == user_id ==> final(dir).clients@[j].is_up && final(dir).clients@[j].addr@
                    == composed_addr(src_ip@, p2p_port)) && (forall|j: int|
                0 <= j < old(dir).clients@.len() && #[trigger] old(dir).clients@[j].client_id
                    != user_id ==> final(dir).clients@[j] == old(dir).clients@[j])))
            &&& (!known ==> r == Reply::Failure { error: DirectoryError::ClientNotFound } && *final(dir) == *old(dir))
            &&& final(dir).clients@.len() == old(dir).clients@.len()
            &&& final(dir).resources == old(dir).resources
            &&& final(dir).next_client_id == old(dir).next_client_id
        }),
        req matches ClientRequest::ActiveUsers { user_id } ==> (*final(dir) == *old(dir) && (
        r matches Reply::ActiveUsersOk { data } && data@.len() == up_peers(
            old(dir).clients@,
            user_id,
        ).len() && (forall|t: int|
            0 <= t < data@.len() ==> #[trigger] data@[t].0 == up_peers(
                old(dir).clients@,
                user_id,
            )[t].client_id && data@[t].1@ == up_peers(old(dir).clients@, user_id)[t].addr@
                && strings_view(data@[t].2@) =~= images_of(
                old(dir).resources@,
                up_peers(old(dir).clients@, user_id)[t].client_id,
            )))),
        req matches ClientRequest::Shutdown { user_id } ==> (r is ShutdownOk && final(dir).clients@.len() == old(dir).clients@.len() && (forall|j: int|
            0 <= j < old(dir).clients@.len() && #[trigger] old(dir).clients@[j].client_id
                == user_id ==> final(dir).clients@[j] == (ClientRecord {
                client_id: user_id,
                addr: old(dir).clients@[j].addr,
                is_up: false,
            })) && (forall|j: int|
            0 <= j < old(dir).clients@.len() && #[trigger] old(dir).clients@[j].client_id
                != user_id ==> final(dir).clients@[j] == old(dir).clients@[j]) && final(dir).pending
            == old(dir).pending && final(dir).resources == old(dir).resources && final(dir).next_client_id == old(dir).next_client_id),
        req matches ClientRequest::ChangeView { peer_address, image_id, requested_views } ==> ({
            let known = exists|i: int|
                0 <= i < old(dir).clients@.len() && #[trigger] old(dir).clients@[i].addr@
                    == peer_address@;
            &&& (known ==> (r is ChangeViewOk && exists|i: int|
                0 <= i < old(dir).clients@.len() && #[trigger] old(dir).clients@[i].addr@
                    == peer_address@ && (forall|j: int|
                    0 <= j < i ==> old(dir).clients@[j].addr@ != peer_address@) && final(dir).pending@ =~= old(dir).pending@.push(
                    (PendingRightsRecord {
                        client_id: old(dir).clients@[i].client_id,
                        image_id: image_id,
                        views: requested_views as u32,
                    }),
                ) && (forall|j: int|
                    0 <= j < old(dir).clients@.len() && #[trigger] old(dir).clients@[j].client_id
                        == old(dir).clients@[i].client_id ==> final(dir).clients@[j]
                        == (ClientRecord {
                        client_id: old(dir).clients@[i].client_id,
                        addr: old(dir).clients@[j].addr,
                        is_up: false,
                    })) && (forall|j: int|
                    0 <= j < old(dir).clients@.len() && #[trigger] old(dir).clients@[j].client_id
                        != old(dir).clients@[i].client_id ==> final(dir).clients@[j] == old(dir).clients@[j])))
            &&& (!known ==> r == Reply::Failure { error: DirectoryError::ClientNotFound } && *final(dir) == *old(dir))
            &&& final(dir).clients@.len() == old(dir).clients@.len()
            &&& final(dir).resources == old(dir).resources
            &&& final(dir).next_client_id == old(dir).next_client_id
        }),
{
    match req {
        ClientRequest::Register { random_number: _ } => {
            let user_id = dir.register_user(src_ip);
            Reply::RegisterOk { user_id }
        },
        ClientRequest::SignIn { user_id, p2p_port } => {
            let addr = compose_addr(src_ip.as_str(), p2p_port);
            if dir.sign_in_user(user_id, &addr) {
                let resources = dir.get_resources_by_client_id(user_id);
                Reply::SignInOk { resources }
            } else {
                Reply::Failure { error: DirectoryError::ClientNotFound }
            }
        },
        ClientRequest::ActiveUsers { user_id } => {
            let data = dir.get_images_up(user_id);
            Reply::ActiveUsersOk { data }
        },
        ClientRequest::Shutdown { user_id } => {
            dir.shutdown_client(user_id);
            Reply::ShutdownOk
        },
        ClientRequest::ChangeView { peer_address, image_id, requested_views } => {
            match dir.update_access_rights(&peer_address, &image_id, requested_views as u32) {
                Ok(viewer_id) => {
                    dir.shutdown_client(viewer_id);
                    Reply::ChangeViewOk
                },
                Err(e) => Reply::Failure { error: e },
            }
        },
    }
}

} // verus!
