//! The authority that signs and checks announce tokens.
//!
//! A token is the hexadecimal SHA-1 digest of a secret followed by the four
//! octets of an address. The port takes no part, so a peer that comes back
//! from the same address on another port may still announce. The authority
//! keeps two secrets, and a token under either is accepted: a token stays
//! good across one rotation.

use crate::structs::hexcode::{encode_hex, hex_decoding, hex_encoding, lemma_hex_round_trip};
use crate::structs::node::Endpoint;
use rand::Rng;
use sha1::{Digest, Sha1};
use vstd::prelude::*;

verus! {

/// The SHA-1 digest of a sequence of bytes, as `Sha1::digest` computes it.
pub uninterp spec fn sha1_digest(data: Seq<u8>) -> Seq<u8>;

/// Calls `Sha1::digest`, which hashes the bytes in one step; the digest
/// has twenty bytes.
#[verifier::external_body]
pub(crate) fn sha1_of(data: &[u8]) -> (digest: [u8; 20])
    ensures
        digest@ == sha1_digest(data@),
{
    Sha1::digest(data).into()
}

/// The token that `secret` gives to an address.
pub open spec fn token_for(secret: Seq<u8>, addr: Seq<u8>) -> Seq<char> {
    hex_encoding(sha1_digest(secret + addr))
}

/// Whether an authority with these two secrets accepts the token for the
/// address.
pub open spec fn accepted_by(
    current: Seq<u8>,
    previous: Seq<u8>,
    token: Seq<char>,
    addr: Seq<u8>,
) -> bool {
    token == token_for(current, addr) || token == token_for(previous, addr)
}

/// The two secrets of an authority, as plain values.
pub struct TokenAuthorityView {
    pub current: Seq<u8>,
    pub previous: Seq<u8>,
}

impl TokenAuthorityView {
    /// The token that the authority signs for the endpoint.
    pub open spec fn token(self, endpoint: Endpoint) -> Seq<char> {
        token_for(self.current, endpoint.addr@)
    }

    /// Whether the authority accepts the token for the endpoint.
    pub open spec fn accepts(self, token: Seq<char>, endpoint: Endpoint) -> bool {
        accepted_by(self.current, self.previous, token, endpoint.addr@)
    }

    /// The authority after a rotation that brought in `fresh`.
    pub open spec fn rotated(self, fresh: Seq<u8>) -> TokenAuthorityView {
        TokenAuthorityView { current: fresh, previous: self.current }
    }
}

/// Signs tokens under its current secret, and accepts tokens under its
/// current and its previous secret.
#[derive(Debug)]
pub struct TokenAuthority {
    current_secret: [u8; 32],
    last_secret: [u8; 32],
}

impl View for TokenAuthority {
    type V = TokenAuthorityView;

    closed spec fn view(&self) -> TokenAuthorityView {
        TokenAuthorityView { current: self.current_secret@, previous: self.last_secret@ }
    }
}

impl TokenAuthority {
    /// An authority with two random secrets.
    pub fn new() -> (authority: TokenAuthority)
        ensures
            authority@.current.len() == 32,
            authority@.previous.len() == 32,
    {
        TokenAuthority::from_secrets(
            TokenAuthority::random_secret(),
            TokenAuthority::random_secret(),
        )
    }

    /// An authority with the two secrets given.
    pub fn from_secrets(current_secret: [u8; 32], last_secret: [u8; 32]) -> (authority:
        TokenAuthority)
        ensures
            authority@ == (TokenAuthorityView {
                current: current_secret@,
                previous: last_secret@,
            }),
    {
        TokenAuthority { current_secret, last_secret }
    }

    /// The secret that tokens are signed under.
    pub fn current_secret(&self) -> (secret: [u8; 32])
        ensures
            secret@ == self@.current,
    {
        self.current_secret
    }

    /// The secret that tokens were signed under before the last rotation.
    pub fn last_secret(&self) -> (secret: [u8; 32])
        ensures
            secret@ == self@.previous,
    {
        self.last_secret
    }

    /// Makes the current secret the previous one, and a random secret the
    /// current one.
    pub fn rotate(&mut self)
        ensures
            exists|fresh: Seq<u8>| fresh.len() == 32 && final(self)@ == old(self)@.rotated(fresh),
    {
        let fresh = TokenAuthority::random_secret();
        self.rotate_with(fresh);
        assert(fresh@.len() == 32 && self@ == old(self)@.rotated(fresh@));
    }

    /// Makes the current secret the previous one, and `fresh` the current
    /// one.
    pub fn rotate_with(&mut self, fresh: [u8; 32])
        ensures
            final(self)@ == old(self)@.rotated(fresh@),
    {
        self.last_secret = self.current_secret;
        self.current_secret = fresh;
    }

    /// The token for the endpoint's address under the current secret.
    pub fn sign(&self, data: &Endpoint) -> (token: String)
        ensures
            token@ == self@.token(*data),
    {
        TokenAuthority::sign_with(data, &self.current_secret)
    }

    /// Whether the token is the one for the endpoint's address under the
    /// current or the previous secret.
    pub fn verify(&self, token: &String, data: &Endpoint) -> (r: bool)
        ensures
            r == self@.accepts(token@, *data),
    {
        if TokenAuthority::sign_with(data, &self.current_secret) == *token {
            return true;
        }
        if TokenAuthority::sign_with(data, &self.last_secret) == *token {
            return true;
        }
        false
    }

    /// Calls `rand::thread_rng` and `Rng::gen` for 32 random bytes. Nothing
    /// is claimed of the bytes that come back.
    #[verifier::external_body]
    fn random_secret() -> (secret: [u8; 32]) {
        rand::thread_rng().gen()
    }

    /// The token for the endpoint's address under `secret`.
    pub fn sign_with(data: &Endpoint, secret: &[u8; 32]) -> (token: String)
        ensures
            token@ == token_for(secret@, data.addr@),
    {
        let mut input: Vec<u8> = Vec::new();
        let mut i: usize = 0;
        while i < 32
            invariant
                i <= 32,
                input@ == secret@.take(i as int),
            decreases 32 - i,
        {
            input.push(secret[i]);
            assert(secret@.take(i + 1) =~= secret@.take(i as int).push(secret@[i as int]));
            i += 1;
        }
        let mut k: usize = 0;
        while k < 4
            invariant
                k <= 4,
                input@ == secret@ + data.addr@.take(k as int),
            decreases 4 - k,
        {
            input.push(data.addr[k]);
            assert(input@ =~= secret@ + data.addr@.take(k + 1));
            k += 1;
        }
        assert(input@ =~= secret@ + data.addr@);
        let digest = sha1_of(input.as_slice());
        encode_hex(digest.as_slice())
    }
}

/// Two byte sequences with one hexadecimal form are one sequence.
pub proof fn lemma_hex_decides(a: Seq<u8>, b: Seq<u8>)
    ensures
        hex_encoding(a) == hex_encoding(b) <==> a == b,
{
    lemma_hex_round_trip(a);
    lemma_hex_round_trip(b);
}

/// An authority accepts the token that it signs for an endpoint, at that
/// endpoint and at any other port of its address.
pub proof fn lemma_own_token_accepted(authority: TokenAuthorityView, signed: Endpoint, used: Endpoint)
    requires
        signed.addr == used.addr,
    ensures
        authority.accepts(authority.token(signed), used),
{
}

/// A token signed for one address is accepted for another only where
/// SHA-1 gives the two inputs one digest.
pub proof fn lemma_token_binds_address(authority: TokenAuthorityView, signed: Endpoint, used: Endpoint)
    ensures
        authority.accepts(authority.token(signed), used) <==> {
            ||| sha1_digest(authority.current + signed.addr@) == sha1_digest(
                authority.current + used.addr@,
            )
            ||| sha1_digest(authority.current + signed.addr@) == sha1_digest(
                authority.previous + used.addr@,
            )
        },
{
    lemma_hex_decides(
        sha1_digest(authority.current + signed.addr@),
        sha1_digest(authority.current + used.addr@),
    );
    lemma_hex_decides(
        sha1_digest(authority.current + signed.addr@),
        sha1_digest(authority.previous + used.addr@),
    );
}

/// A token stays accepted after one rotation.
pub proof fn lemma_token_survives_rotation(
    authority: TokenAuthorityView,
    fresh: Seq<u8>,
    endpoint: Endpoint,
)
    ensures
        authority.rotated(fresh).accepts(authority.token(endpoint), endpoint),
{
}

/// After two rotations a token is accepted only where SHA-1 gives it the
/// digest that one of the two fresh secrets has for the address.
pub proof fn lemma_token_after_two_rotations(
    authority: TokenAuthorityView,
    first: Seq<u8>,
    second: Seq<u8>,
    endpoint: Endpoint,
)
    ensures
        authority.rotated(first).rotated(second).accepts(authority.token(endpoint), endpoint) <==> {
            ||| sha1_digest(authority.current + endpoint.addr@) == sha1_digest(
                second + endpoint.addr@,
            )
            ||| sha1_digest(authority.current + endpoint.addr@) == sha1_digest(
                first + endpoint.addr@,
            )
        },
{
    lemma_hex_decides(
        sha1_digest(authority.current + endpoint.addr@),
        sha1_digest(second + endpoint.addr@),
    );
    lemma_hex_decides(
        sha1_digest(authority.current + endpoint.addr@),
        sha1_digest(first + endpoint.addr@),
    );
}

} // verus!
