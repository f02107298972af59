//! Per-connection handlers and broadcast fan-out.
//!
//! Each of the three endpoints feeds the frames it reads to one handler
//! here: registration and login answer with a token frame (or the
//! all-zero failure frame), the chat endpoint turns a valid frame into
//! a message to fan out.  The handlers hold the whole decision logic;
//! the caller only moves bytes between sockets and these functions.
use vstd::prelude::*;
use vstd::utf8::valid_utf8;
use vstd::utf8::decode_utf8;
use vstd::utf8::encode_utf8;
use crate::codec::DecodeError;
use crate::codec::EncodeError;
use crate::codec::decode_frame;
use crate::codec::encode_frame;
use crate::codec::spec_pad;
use crate::codec::spec_strip;
use crate::codec::lemma_strip_len;
use crate::codec::lemma_decode_utf8_len;
use crate::envelope::Envelope;
use crate::envelope::EnvelopeData;
use crate::envelope::spec_parse_credentials;
use crate::envelope::spec_parse_envelope;
use crate::envelope::spec_serialize;
use crate::envelope::spec_serialize_credentials;
use crate::envelope::parse_credentials;
use crate::envelope::parse_envelope;
use crate::envelope::serialize_credentials;
use crate::envelope::serialize_envelope;
use crate::envelope::lemma_parse_credentials_len;
use crate::hashing::digest_password;
use crate::hashing::spec_digest_of;
use crate::registry::Account;
use crate::registry::Registry;
use crate::registry::spec_credentials_match;
use crate::registry::spec_has_username;
use crate::registry::spec_login_applied;
use crate::registry::spec_rebind_applied;
use crate::registry::spec_session_valid;
use crate::token::is_token;
use crate::DATA_FRAME_LEN;
use crate::TOKEN_FRAME_LEN;
use crate::TOKEN_LEN;

verus! {

/// A frame that cannot be understood; fatal for the connection that
/// sent it.
#[derive(Clone, Copy, Debug, PartialEq, Eq, Structural)]
pub enum DecodeFailure {
    /// The frame bytes are not valid UTF-8 once the padding is gone.
    InvalidUtf8,
    /// The text is not a canonical request for this endpoint.
    MalformedEnvelope,
}

/// Why a chat frame produces no broadcast.
#[derive(Clone, Copy, Debug, PartialEq, Eq, Structural)]
pub enum ChatError {
    /// The frame cannot be understood; fatal for the connection.
    Decode(DecodeFailure),
    /// The frame's (username, token) pair is no live session; the
    /// message is dropped and the connection stays open.
    UnauthenticatedRelay,
    /// Empty content is never relayed.
    EmptyContent,
}

/// Whether the frame strips to valid UTF-8 text.
pub open spec fn spec_frame_utf8(frame: Seq<u8>) -> bool {
    valid_utf8(spec_strip(frame))
}

/// The text a frame carries.
pub open spec fn spec_frame_text(frame: Seq<u8>) -> Seq<char> {
    decode_utf8(spec_strip(frame))
}

/// The credentials request a frame carries, if any.
pub open spec fn spec_frame_credentials(frame: Seq<u8>) -> Option<(Seq<char>, Seq<char>)> {
    if spec_frame_utf8(frame) {
        spec_parse_credentials(spec_frame_text(frame))
    } else {
        None
    }
}

/// The chat envelope a frame carries, if any.
pub open spec fn spec_frame_envelope(frame: Seq<u8>) -> Option<EnvelopeData> {
    if spec_frame_utf8(frame) {
        spec_parse_envelope(spec_frame_text(frame))
    } else {
        None
    }
}

/// The reply frame carrying a session token.
pub open spec fn spec_token_reply(t: Seq<char>) -> Seq<u8> {
    spec_pad(encode_utf8(t), TOKEN_FRAME_LEN as nat)
}

/// The all-zero reply frame: the failure signal of the registration
/// and login endpoints.
pub open spec fn spec_empty_reply() -> Seq<u8> {
    spec_pad(Seq::empty(), TOKEN_FRAME_LEN as nat)
}

/// The table `accs` is `olds` plus one new account for `(u, p)`: the
/// digest of the password stored, a fresh full-length token `t`, and no
/// live handle yet.
pub open spec fn spec_register_applied(
    olds: Seq<Account>,
    accs: Seq<Account>,
    u: Seq<char>,
    p: Seq<char>,
    t: Seq<char>,
) -> bool {
    &&& accs.len() == olds.len() + 1
    &&& forall|i: int| 0 <= i < olds.len() ==> accs[i] == #[trigger] olds[i]
    &&& accs.last().username@ == u
    &&& accs.last().digest@ == spec_digest_of(p)
    &&& accs.last().token@ == t
    &&& accs.last().handle is None
    &&& is_token(t)
}

/// Encode a session token into its reply frame.
fn token_reply(token: &String) -> (r: Vec<u8>)
    requires
        is_token(token@),
    ensures
        r@ == spec_token_reply(token@),
{
    proof {
        assert forall|i: int| 0 <= i < token@.len() implies ((#[trigger] token@[i]) as u32)
            < 0x80 by {
            assert(crate::token::is_token_char(token@[i]));
        }
        crate::codec::lemma_ascii_chars_encode(token@);
        assert(encode_utf8(token@).len() == TOKEN_LEN);
    }
    encode_frame(token.as_str(), TOKEN_FRAME_LEN).unwrap()
}

/// Encode the all-zero failure reply frame.
fn empty_reply() -> (r: Vec<u8>)
    ensures
        r@ == spec_empty_reply(),
{
    proof {
        reveal_strlit("");
        assert(""@ =~= Seq::<char>::empty());
        assert(encode_utf8(""@) =~= Seq::<u8>::empty());
    }
    encode_frame("", TOKEN_FRAME_LEN).unwrap()
}

/// Handle one frame of the registration endpoint: read the credentials
/// request, reject a taken username with the failure frame, otherwise
/// digest the password, add the account and reply with its fresh
/// token's frame.  A frame that cannot be read is fatal for the
/// connection and changes nothing.
pub fn handle_register(reg: &mut Registry, frame: &Vec<u8>) -> (r: Result<Vec<u8>, DecodeFailure>)
    requires
        old(reg).wf(),
        frame@.len() <= DATA_FRAME_LEN,
    ensures
        final(reg).wf(),
        r is Err ==> final(reg).accounts() == old(reg).accounts(),
        r == Result::<Vec<u8>, DecodeFailure>::Err(DecodeFailure::InvalidUtf8) <==> !spec_frame_utf8(
            frame@,
        ),
        r == Result::<Vec<u8>, DecodeFailure>::Err(DecodeFailure::MalformedEnvelope)
            <==> spec_frame_utf8(frame@) && spec_frame_credentials(frame@) is None,
        r is Ok <==> spec_frame_credentials(frame@) is Some,
        r is Ok && spec_has_username(
            old(reg).accounts(),
            (spec_frame_credentials(frame@)->0).0,
        ) ==> (r->Ok_0)@ == spec_empty_reply() && final(reg).accounts() == old(reg).accounts(),
        r is Ok && !spec_has_username(
            old(reg).accounts(),
            (spec_frame_credentials(frame@)->0).0,
        ) ==> exists|t: Seq<char>|
            #[trigger] spec_register_applied(
                old(reg).accounts(),
                final(reg).accounts(),
                (spec_frame_credentials(frame@)->0).0,
                (spec_frame_credentials(frame@)->0).1,
                t,
            ) && (r->Ok_0)@ == spec_token_reply(t),
{
    let text = match decode_frame(frame) {
        Ok(t) => t,
        Err(_) => {
            return Err(DecodeFailure::InvalidUtf8);
        },
    };
    let parsed = match parse_credentials(text.as_str()) {
        Some(p) => p,
        None => {
            return Err(DecodeFailure::MalformedEnvelope);
        },
    };
    let (username, password) = parsed;
    if reg.contains_username(&username) {
        Ok(empty_reply())
    } else {
        proof {
            lemma_strip_len(frame@);
            lemma_decode_utf8_len(spec_strip(frame@));
            lemma_parse_credentials_len(text@);
        }
        let digest = digest_password(password.as_str());
        match reg.register(username, digest) {
            Ok(token) => {
                let reply = token_reply(&token);
                proof {
                    assert(spec_register_applied(
                        old(reg).accounts(),
                        reg.accounts(),
                        (spec_frame_credentials(frame@)->0).0,
                        (spec_frame_credentials(frame@)->0).1,
                        token@,
                    ));
                }
                Ok(reply)
            },
            Err(_) => {
                proof {
                    assert(false);
                }
                Err(DecodeFailure::MalformedEnvelope)
            },
        }
    }
}

/// Handle one frame of the login endpoint: read the credentials
/// request (username and password digest) and try to authenticate.  On
/// success the account's fresh token comes back in the reply frame and
/// this connection becomes the account's live handle; on bad
/// credentials the failure frame comes back and nothing changes.  A
/// frame that cannot be read is fatal for the connection.
pub fn handle_login(reg: &mut Registry, frame: &Vec<u8>, handle: u64) -> (r: Result<
    Vec<u8>,
    DecodeFailure,
>)
    requires
        old(reg).wf(),
    ensures
        final(reg).wf(),
        r is Err ==> final(reg).accounts() == old(reg).accounts(),
        r == Result::<Vec<u8>, DecodeFailure>::Err(DecodeFailure::InvalidUtf8) <==> !spec_frame_utf8(
            frame@,
        ),
        r == Result::<Vec<u8>, DecodeFailure>::Err(DecodeFailure::MalformedEnvelope)
            <==> spec_frame_utf8(frame@) && spec_frame_credentials(frame@) is None,
        r is Ok <==> spec_frame_credentials(frame@) is Some,
        r is Ok && !spec_credentials_match(
            old(reg).accounts(),
            (spec_frame_credentials(frame@)->0).0,
            (spec_frame_credentials(frame@)->0).1,
        ) ==> (r->Ok_0)@ == spec_empty_reply() && final(reg).accounts() == old(reg).accounts(),
        r is Ok && spec_credentials_match(
            old(reg).accounts(),
            (spec_frame_credentials(frame@)->0).0,
            (spec_frame_credentials(frame@)->0).1,
        ) ==> exists|t: Seq<char>, i: int|
            #[trigger] spec_login_applied(
                old(reg).accounts(),
                final(reg).accounts(),
                i,
                (spec_frame_credentials(frame@)->0).0,
                (spec_frame_credentials(frame@)->0).1,
                t,
                handle,
            ) && is_token(t) && (r->Ok_0)@ == spec_token_reply(t) && (forall|t2: Seq<char>|
                #[trigger] spec_session_valid(
                    final(reg).accounts(),
                    (spec_frame_credentials(frame@)->0).0,
                    t2,
                ) <==> t2 == t),
{
    let text = match decode_frame(frame) {
        Ok(t) => t,
        Err(_) => {
            return Err(DecodeFailure::InvalidUtf8);
        },
    };
    let parsed = match parse_credentials(text.as_str()) {
        Some(p) => p,
        None => {
            return Err(DecodeFailure::MalformedEnvelope);
        },
    };
    let (username, digest) = parsed;
    match reg.authenticate(&username, &digest, handle) {
        Ok(token) => {
            let reply = token_reply(&token);
            Ok(reply)
        },
        Err(_) => Ok(empty_reply()),
    }
}

/// A validated chat message, ready for fan-out.
#[derive(Debug)]
pub struct ChatMessage {
    pub username: String,
    pub token: String,
    pub content: String,
}

/// Handle one frame of the chat endpoint: read the envelope, rebind
/// this connection as the sender's live handle when the session
/// matches, and hand the content on for fan-out.  A frame whose
/// session token is not live is rejected explicitly, as is empty
/// content; a frame that cannot be read is fatal for the connection.
pub fn handle_chat(reg: &mut Registry, frame: &Vec<u8>, handle: u64) -> (r: Result<
    ChatMessage,
    ChatError,
>)
    requires
        old(reg).wf(),
    ensures
        final(reg).wf(),
        spec_frame_envelope(frame@) is None ==> final(reg).accounts() == old(reg).accounts(),
        spec_frame_envelope(frame@) is Some ==> spec_rebind_applied(
            old(reg).accounts(),
            final(reg).accounts(),
            (spec_frame_envelope(frame@)->0).username,
            (spec_frame_envelope(frame@)->0).token,
            handle,
        ),
        r == Result::<ChatMessage, ChatError>::Err(ChatError::Decode(DecodeFailure::InvalidUtf8))
            <==> !spec_frame_utf8(frame@),
        r == Result::<ChatMessage, ChatError>::Err(
            ChatError::Decode(DecodeFailure::MalformedEnvelope),
        ) <==> spec_frame_utf8(frame@) && spec_frame_envelope(frame@) is None,
        r == Result::<ChatMessage, ChatError>::Err(ChatError::UnauthenticatedRelay)
            <==> spec_frame_envelope(frame@) is Some && !spec_session_valid(
            old(reg).accounts(),
            (spec_frame_envelope(frame@)->0).username,
            (spec_frame_envelope(frame@)->0).token,
        ),
        r == Result::<ChatMessage, ChatError>::Err(ChatError::EmptyContent)
            <==> spec_frame_envelope(frame@) is Some && spec_session_valid(
            old(reg).accounts(),
            (spec_frame_envelope(frame@)->0).username,
            (spec_frame_envelope(frame@)->0).token,
        ) && (spec_frame_envelope(frame@)->0).content.len() == 0,
        r is Ok <==> spec_frame_envelope(frame@) is Some && spec_session_valid(
            old(reg).accounts(),
            (spec_frame_envelope(frame@)->0).username,
            (spec_frame_envelope(frame@)->0).token,
        ) && (spec_frame_envelope(frame@)->0).content.len() > 0,
        r is Ok ==> (r->Ok_0).username@ == (spec_frame_envelope(frame@)->0).username && (
        r->Ok_0).token@ == (spec_frame_envelope(frame@)->0).token && (r->Ok_0).content@ == (
        spec_frame_envelope(frame@)->0).content,
{
    let text = match decode_frame(frame) {
        Ok(t) => t,
        Err(_) => {
            return Err(ChatError::Decode(DecodeFailure::InvalidUtf8));
        },
    };
    let env = match parse_envelope(text.as_str()) {
        Some(e) => e,
        None => {
            return Err(ChatError::Decode(DecodeFailure::MalformedEnvelope));
        },
    };
    let Envelope { from, to: _, content } = env;
    let username = from.username;
    let token = from.token;
    reg.rebind_handle(&username, &token, handle);
    proof {
        lemma_rebind_preserves_sessions(
            old(reg).accounts(),
            reg.accounts(),
            username@,
            token@,
            handle,
        );
    }
    if !reg.is_session_valid(&username, &token) {
        return Err(ChatError::UnauthenticatedRelay);
    }
    if content.unicode_len() == 0 {
        return Err(ChatError::EmptyContent);
    }
    Ok(ChatMessage { username, token, content })
}

/// The rendered fan-out line for a chat message.
pub open spec fn spec_render(u: Seq<char>, c: Seq<char>) -> Seq<char> {
    u + " : "@ + c
}

/// Render a validated chat message as the text every peer receives.
pub fn render_broadcast(m: &ChatMessage) -> (r: String)
    ensures
        r@ == spec_render(m.username@, m.content@),
{
    let mut out = String::new();
    out.append(m.username.as_str());
    out.append(" : ");
    out.append(m.content.as_str());
    assert(out@ =~= spec_render(m.username@, m.content@));
    out
}

/// `h` is the live handle of some account other than the sender
/// `(u, t)`.
pub open spec fn spec_target_ok(accs: Seq<Account>, u: Seq<char>, t: Seq<char>, h: u64) -> bool {
    exists|i: int|
        0 <= i < accs.len() && #[trigger] accs[i].handle == Some(h) && !(accs[i].username@ == u
            && accs[i].token@ == t)
}

/// `targets` holds exactly the live handles of the accounts other than
/// the sender `(u, t)`: every other connected account's handle is
/// there, everything there belongs to such an account, no handle
/// repeats — so fan-out writes exactly one frame per peer — and the
/// sender's own live handle never is there.
pub open spec fn spec_is_broadcast_targets(
    accs: Seq<Account>,
    u: Seq<char>,
    t: Seq<char>,
    targets: Seq<u64>,
) -> bool {
    &&& forall|i: int|
        0 <= i < accs.len() && (#[trigger] accs[i]).handle is Some && !(accs[i].username@ == u
            && accs[i].token@ == t) ==> targets.contains(accs[i].handle->0)
    &&& forall|k: int| 0 <= k < targets.len() ==> spec_target_ok(accs, u, t, #[trigger] targets[k])
    &&& forall|k1: int, k2: int|
        0 <= k1 < k2 < targets.len() ==> #[trigger] targets[k1] != #[trigger] targets[k2]
    &&& forall|i: int|
        0 <= i < accs.len() && (#[trigger] accs[i]).username@ == u && accs[i].token@ == t
            && accs[i].handle is Some ==> !targets.contains(accs[i].handle->0)
}

/// The live handles that a message from `(username, token)` fans out
/// to: every connected account except the sender.  The sender's own
/// handle is never among them.
pub fn broadcast_targets(reg: &Registry, username: &String, token: &String) -> (r: Vec<u64>)
    requires
        reg.wf(),
    ensures
        spec_is_broadcast_targets(reg.accounts(), username@, token@, r@),
{
    let ghost accs = reg.accounts();
    let n = reg.len();
    let mut r: Vec<u64> = Vec::new();
    let ghost mut src: Seq<int> = Seq::empty();
    let mut i: usize = 0;
    while i < n
        invariant
            reg.wf(),
            accs == reg.accounts(),
            n == accs.len(),
            i <= n,
            src.len() == r@.len(),
            forall|a: int|
                0 <= a < i && (#[trigger] accs[a]).handle is Some && !(accs[a].username@
                    == username@ && accs[a].token@ == token@) ==> r@.contains(accs[a].handle->0),
            forall|k: int|
                0 <= k < r@.len() ==> 0 <= #[trigger] src[k] < i && accs[src[k]].handle == Some(
                    r@[k],
                ) && !(accs[src[k]].username@ == username@ && accs[src[k]].token@ == token@),
            forall|k1: int, k2: int| 0 <= k1 < k2 < src.len() ==> #[trigger] src[k1] < #[trigger] src[k2],
        decreases n - i,
    {
        let acc = reg.account_at(i);
        let is_sender = acc.username == *username && acc.token == *token;
        match acc.handle {
            Some(h) => {
                if !is_sender {
                    let ghost old_r = r@;
                    r.push(h);
                    proof {
                        let ghost old_src = src;
                        src = src.push(i as int);
                        assert(r@ =~= old_r.push(h));
                        assert(r@[r@.len() - 1] == h);
                        assert forall|k1: int, k2: int|
                            0 <= k1 < k2 < src.len() implies #[trigger] src[k1]
                            < #[trigger] src[k2] by {
                            if k2 == src.len() - 1 {
                                assert(src[k1] == old_src[k1]);
                                assert(old_src[k1] < i as int);
                            } else {
                                assert(src[k1] == old_src[k1] && src[k2] == old_src[k2]);
                            }
                        }
                        assert forall|a: int|
                            0 <= a < i + 1 && (#[trigger] accs[a]).handle is Some && !(
                            accs[a].username@ == username@ && accs[a].token@
                                == token@) implies r@.contains(accs[a].handle->0) by {
                            if a < i {
                                assert(old_r.contains(accs[a].handle->0));
                                let k = choose|k: int|
                                    0 <= k < old_r.len() && old_r[k] == accs[a].handle->0;
                                assert(r@[k] == accs[a].handle->0);
                            } else {
                                assert(r@[r@.len() - 1] == accs[a].handle->0);
                            }
                        }
                    }
                }
            },
            None => {},
        }
        i = i + 1;
    }
    proof {
        assert forall|k: int| 0 <= k < r@.len() implies spec_target_ok(
            accs,
            username@,
            token@,
            #[trigger] r@[k],
        ) by {
            let a = src[k];
            assert(0 <= a < accs.len() && accs[a].handle == Some(r@[k]) && !(accs[a].username@
                == username@ && accs[a].token@ == token@));
        }
        assert forall|k1: int, k2: int| 0 <= k1 < k2 < r@.len() implies #[trigger] r@[k1]
            != #[trigger] r@[k2] by {
            let a = src[k1];
            let b = src[k2];
            assert(a < b);
            assert(accs[a].handle == Some(r@[k1]));
            assert(accs[b].handle == Some(r@[k2]));
            assert(accs[a].handle != accs[b].handle);
        }
        assert forall|a: int|
            0 <= a < accs.len() && (#[trigger] accs[a]).username@ == username@ && accs[a].token@
                == token@ && accs[a].handle is Some implies !r@.contains(accs[a].handle->0) by {
            if r@.contains(accs[a].handle->0) {
                let k = choose|k: int| 0 <= k < r@.len() && r@[k] == accs[a].handle->0;
                let b = src[k];
                assert(accs[b].handle == Some(r@[k]));
                assert(b != a);
                assert(accs[a].handle == accs[b].handle);
                assert(false);
            }
        }
    }
    r
}

/// Plan the fan-out of a validated chat message: the rendered frame to
/// write, and the live handles to write it to.  A rendered line whose
/// encoding exceeds the frame capacity is rejected, never truncated.
pub fn plan_broadcast(reg: &Registry, m: &ChatMessage) -> (r: Result<
    (Vec<u8>, Vec<u64>),
    EncodeError,
>)
    requires
        reg.wf(),
    ensures
        r is Ok <==> encode_utf8(spec_render(m.username@, m.content@)).len() <= DATA_FRAME_LEN,
        r is Err ==> r->Err_0 == EncodeError::Oversize,
        r is Ok ==> (r->Ok_0).0@ == spec_pad(
            encode_utf8(spec_render(m.username@, m.content@)),
            DATA_FRAME_LEN as nat,
        ),
        r is Ok ==> spec_is_broadcast_targets(
            reg.accounts(),
            m.username@,
            m.token@,
            (r->Ok_0).1@,
        ),
{
    let line = render_broadcast(m);
    let frame = match encode_frame(line.as_str(), DATA_FRAME_LEN) {
        Ok(f) => f,
        Err(e) => {
            return Err(e);
        },
    };
    let targets = broadcast_targets(reg, &m.username, &m.token);
    Ok((frame, targets))
}

/// Build the frame a client sends to the registration endpoint: the
/// credentials request with the plain password (the server digests it).
pub fn make_register_request(username: &str, password: &str) -> (r: Result<Vec<u8>, EncodeError>)
    ensures
        r is Ok <==> encode_utf8(spec_serialize_credentials(username@, password@)).len()
            <= DATA_FRAME_LEN,
        r is Err ==> r->Err_0 == EncodeError::Oversize,
        r is Ok ==> (r->Ok_0)@ == spec_pad(
            encode_utf8(spec_serialize_credentials(username@, password@)),
            DATA_FRAME_LEN as nat,
        ),
{
    let text = serialize_credentials(username, password);
    encode_frame(text.as_str(), DATA_FRAME_LEN)
}

/// Build the frame a client sends to the login endpoint: the
/// credentials request carrying the digest of the password, computed
/// here so that it matches what registration stored.
pub fn make_login_request(username: &str, password: &str) -> (r: Result<Vec<u8>, EncodeError>)
    requires
        password@.len() < 0x4000_0000,
    ensures
        r is Ok <==> encode_utf8(
            spec_serialize_credentials(username@, spec_digest_of(password@)),
        ).len() <= DATA_FRAME_LEN,
        r is Err ==> r->Err_0 == EncodeError::Oversize,
        r is Ok ==> (r->Ok_0)@ == spec_pad(
            encode_utf8(spec_serialize_credentials(username@, spec_digest_of(password@))),
            DATA_FRAME_LEN as nat,
        ),
{
    let digest = digest_password(password);
    let text = serialize_credentials(username, digest.as_str());
    encode_frame(text.as_str(), DATA_FRAME_LEN)
}

/// Build the frame a client sends to the chat endpoint.
pub fn make_chat_frame(e: &Envelope) -> (r: Result<Vec<u8>, EncodeError>)
    ensures
        r is Ok <==> encode_utf8(spec_serialize(e@)).len() <= DATA_FRAME_LEN,
        r is Err ==> r->Err_0 == EncodeError::Oversize,
        r is Ok ==> (r->Ok_0)@ == spec_pad(encode_utf8(spec_serialize(e@)), DATA_FRAME_LEN as nat),
{
    let text = serialize_envelope(e);
    encode_frame(text.as_str(), DATA_FRAME_LEN)
}

/// Read a registration or login reply: `None` for the all-zero failure
/// frame, otherwise the token the server issued.
pub fn parse_token_reply(frame: &Vec<u8>) -> (r: Result<Option<String>, DecodeError>)
    ensures
        r is Ok <==> spec_frame_utf8(frame@),
        r is Err ==> r->Err_0 == DecodeError::InvalidUtf8,
        r is Ok ==> match r->Ok_0 {
            Some(t) => t@ == spec_frame_text(frame@) && t@.len() > 0,
            None => spec_frame_text(frame@).len() == 0,
        },
{
    let text = match decode_frame(frame) {
        Ok(t) => t,
        Err(e) => {
            return Err(e);
        },
    };
    if text.as_str().unicode_len() == 0 {
        Ok(None)
    } else {
        Ok(Some(text))
    }
}

/// Round trip of the frame codec and the envelope grammar: an envelope
/// whose serialized UTF-8 text fits the capacity is recovered exactly
/// — in particular with its content — from its encoded frame.
/// Encoding pads with zero bytes, decoding strips them and reads the
/// text back, and parsing inverts serialization.
pub proof fn lemma_frame_round_trip(d: EnvelopeData, cap: nat)
    requires
        encode_utf8(spec_serialize(d)).len() <= cap,
    ensures
        spec_strip(spec_pad(encode_utf8(spec_serialize(d)), cap)) == encode_utf8(spec_serialize(d)),
        valid_utf8(encode_utf8(spec_serialize(d))),
        decode_utf8(encode_utf8(spec_serialize(d))) == spec_serialize(d),
        spec_parse_envelope(spec_serialize(d)) == Some(d),
        spec_frame_envelope(spec_pad(encode_utf8(spec_serialize(d)), cap)) == Some(d),
{
    broadcast use vstd::utf8::encode_utf8_valid_utf8;
    broadcast use vstd::utf8::encode_utf8_decode_utf8;

    let s = spec_serialize(d);
    crate::envelope::lemma_serialize_last(d);
    crate::codec::lemma_encode_utf8_concat(s.drop_last(), seq![s.last()]);
    assert(s.drop_last() + seq![s.last()] =~= s);
    let close = '}' as u32;
    assert(close == 0x7d);
    assert(vstd::utf8::has_width_1_encoding(close));
    assert((close & 0x7f) as u8 == 0x7du8) by (bit_vector)
        requires
            close == 0x7d,
    ;
    assert(vstd::utf8::encode_scalar(close) =~= seq![0x7du8]);
    assert(seq!['}'].drop_first() =~= Seq::<char>::empty());
    assert(encode_utf8(Seq::<char>::empty()) =~= Seq::<u8>::empty());
    assert(encode_utf8(seq!['}']) =~= seq![0x7du8]);
    let bytes = encode_utf8(s);
    assert(bytes =~= encode_utf8(s.drop_last()) + seq![0x7du8]);
    assert(bytes.len() > 0 && bytes.last() == 0x7du8);
    crate::codec::lemma_strip_pad(bytes, cap);
    crate::envelope::lemma_parse_serialize(d);
}

/// The same round trip for a credentials request: the registration and
/// login endpoints read back exactly the pair the client serialized.
pub proof fn lemma_credentials_frame_round_trip(u: Seq<char>, p: Seq<char>, cap: nat)
    requires
        encode_utf8(spec_serialize_credentials(u, p)).len() <= cap,
    ensures
        spec_frame_credentials(spec_pad(encode_utf8(spec_serialize_credentials(u, p)), cap))
            == Some((u, p)),
{
    broadcast use vstd::utf8::encode_utf8_valid_utf8;
    broadcast use vstd::utf8::encode_utf8_decode_utf8;

    let s = spec_serialize_credentials(u, p);
    crate::envelope::lemma_serialize_credentials_last(u, p);
    crate::codec::lemma_encode_utf8_concat(s.drop_last(), seq![s.last()]);
    assert(s.drop_last() + seq![s.last()] =~= s);
    let close = '}' as u32;
    assert(close == 0x7d);
    assert(vstd::utf8::has_width_1_encoding(close));
    assert((close & 0x7f) as u8 == 0x7du8) by (bit_vector)
        requires
            close == 0x7d,
    ;
    assert(vstd::utf8::encode_scalar(close) =~= seq![0x7du8]);
    assert(seq!['}'].drop_first() =~= Seq::<char>::empty());
    assert(encode_utf8(Seq::<char>::empty()) =~= Seq::<u8>::empty());
    assert(encode_utf8(seq!['}']) =~= seq![0x7du8]);
    let bytes = encode_utf8(s);
    assert(bytes =~= encode_utf8(s.drop_last()) + seq![0x7du8]);
    assert(bytes.len() > 0 && bytes.last() == 0x7du8);
    crate::codec::lemma_strip_pad(bytes, cap);
    crate::envelope::lemma_parse_serialize_credentials(u, p);
}

/// What a first registration of `u` with password `p` leaves behind:
/// the username is taken, so a second registration of it must fail;
/// the issued token has the full length, so the reply is never the
/// failure signal; and exactly the digest of `p` authenticates `u`,
/// so a login must succeed with that password and fail with any other
/// digest.
pub proof fn lemma_registration_effect(
    olds: Seq<Account>,
    accs: Seq<Account>,
    u: Seq<char>,
    p: Seq<char>,
    t: Seq<char>,
)
    requires
        spec_register_applied(olds, accs, u, p, t),
        !spec_has_username(olds, u),
    ensures
        spec_has_username(accs, u),
        t.len() == TOKEN_LEN,
        t.len() > 0,
        forall|d: Seq<char>|
            #[trigger] spec_credentials_match(accs, u, d) <==> d == spec_digest_of(p),
        forall|t2: Seq<char>| #[trigger] spec_session_valid(accs, u, t2) <==> t2 == t,
{
    let last = accs.len() - 1;
    assert(accs[last].username@ == u && accs[last].digest@ == spec_digest_of(p));
    assert forall|d: Seq<char>|
        #[trigger] spec_credentials_match(accs, u, d) <==> d == spec_digest_of(p) by {
        if spec_credentials_match(accs, u, d) {
            let i = choose|i: int|
                0 <= i < accs.len() && #[trigger] accs[i].username@ == u && accs[i].digest@ == d;
            if i < last {
                assert(olds[i].username@ == u);
                assert(false);
            }
        }
        if d == spec_digest_of(p) {
            assert(accs[last].username@ == u && accs[last].digest@ == d);
        }
    }
    assert forall|t2: Seq<char>| #[trigger] spec_session_valid(accs, u, t2) <==> t2 == t by {
        if spec_session_valid(accs, u, t2) {
            let i = choose|i: int|
                0 <= i < accs.len() && #[trigger] accs[i].username@ == u && accs[i].token@ == t2;
            if i < last {
                assert(olds[i].username@ == u);
                assert(false);
            }
        }
        if t2 == t {
            assert(accs[last].username@ == u && accs[last].token@ == t2);
        }
    }
}

/// A rebind changes no username, digest or token, so exactly the same
/// sessions are valid before and after it.
proof fn lemma_rebind_preserves_sessions(
    olds: Seq<Account>,
    accs: Seq<Account>,
    u: Seq<char>,
    t: Seq<char>,
    handle: u64,
)
    requires
        spec_rebind_applied(olds, accs, u, t, handle),
    ensures
        forall|u2: Seq<char>, t2: Seq<char>|
            #[trigger] spec_session_valid(accs, u2, t2) <==> spec_session_valid(olds, u2, t2),
{
    assert forall|u2: Seq<char>, t2: Seq<char>|
        #[trigger] spec_session_valid(accs, u2, t2) <==> spec_session_valid(olds, u2, t2) by {
        if spec_session_valid(olds, u, t) {
            if spec_session_valid(accs, u2, t2) {
                let i = choose|i: int|
                    0 <= i < accs.len() && #[trigger] accs[i].username@ == u2 && accs[i].token@
                        == t2;
                assert(olds[i].username@ == u2 && olds[i].token@ == t2);
            }
            if spec_session_valid(olds, u2, t2) {
                let i = choose|i: int|
                    0 <= i < olds.len() && #[trigger] olds[i].username@ == u2 && olds[i].token@
                        == t2;
                assert(accs[i].username@ == u2 && accs[i].token@ == t2);
            }
        }
    }
}

} // verus!
