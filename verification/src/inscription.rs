//! The inscription that registers a domain: its text, and the key pair that
//! is made for it.

use crate::encryption::{decrypt_stored, decrypted_text, DecryptError, EncryptionKey};
use crate::encryption_methods::EncryptionMethods;
use crate::hexcode::{hex_encode, hex_encoded};
use crate::text::{i64_to_decimal, signed_decimal};
use pqcrypto_traits::sign::{PublicKey, SecretKey};
use vstd::prelude::*;
use vstd::string::*;

verus! {

/// The private key that goes with an inscription, in hexadecimal.
#[derive(Debug, Clone, PartialEq, Eq)]
pub struct GetPrivateKeyResponseObject {
    pub private_key: String,
}

/// The seconds in `millis` milliseconds, rounded towards zero.
pub open spec fn whole_seconds(millis: int) -> int {
    if millis >= 0 {
        millis / 1000
    } else {
        -((-millis) / 1000)
    }
}

/// The seconds in `millis` milliseconds, rounded towards zero.
pub fn seconds_of(millis: i64) -> (seconds: i64)
    ensures
        seconds == whole_seconds(millis as int),
{
    if millis >= 0 {
        ((millis as u64) / 1000) as i64
    } else if millis == i64::MIN {
        -9_223_372_036_854_775
    } else {
        -((((-millis) as u64) / 1000) as i64)
    }
}

/// The text of the inscription for `domain`, made at `epoch` seconds since
/// the Unix epoch, with the public key `public_key` in hexadecimal: the
/// domain line, the validity line and the signature line.
pub open spec fn inscription_text(domain: Seq<char>, public_key: Seq<char>, epoch: int) -> Seq<
    char,
> {
    "DOMAIN "@ + domain + " "@ + signed_decimal(epoch) + "\n"@ + "DOMAIN-VALIDITY "@ + domain
        + " dilithium5 "@ + public_key + "\n"@ + "null null"@
}

/// Writes the inscription for `domain`.
pub fn domain_inscription(domain: &str, public_key: &str, epoch: i64) -> (text: String)
    ensures
        text@ == inscription_text(domain@, public_key@, epoch as int),
{
    let mut text = "DOMAIN ".to_owned();
    text.append(domain);
    text.append(" ");
    let seconds = i64_to_decimal(epoch);
    text.append(seconds.as_str());
    text.append("\n");
    text.append("DOMAIN-VALIDITY ");
    text.append(domain);
    text.append(" dilithium5 ");
    text.append(public_key);
    text.append("\n");
    text.append("null null");
    text
}

/// A fresh key pair of `pqcrypto_dilithium::dilithium5_keypair`: the bytes
/// of the public key, then those of the secret key. The keys are random, so
/// nothing is claimed of them.
#[verifier::external_body]
fn dilithium5_keypair() -> (keys: (Vec<u8>, Vec<u8>)) {
    let (public_key, private_key) = pqcrypto_dilithium::dilithium5_keypair();
    (public_key.as_bytes().to_vec(), private_key.as_bytes().to_vec())
}

/// The time of `chrono::Utc::now`, in milliseconds since the Unix epoch.
/// Nothing is claimed of it.
#[verifier::external_body]
fn now_millis() -> (millis: i64) {
    chrono::Utc::now().timestamp_millis()
}

/// The inscription for `domain` with the key pair `public_key`,
/// `private_key` at `millis` milliseconds since the Unix epoch: the text of
/// the inscription and the private key in hexadecimal.
pub fn inscription_with(domain: &str, public_key: &[u8], private_key: &[u8], millis: i64) -> (r: (
    String,
    String,
))
    ensures
        r.0@ == inscription_text(
            domain@,
            hex_encoded(public_key@),
            whole_seconds(millis as int),
        ),
        r.1@ == hex_encoded(private_key@),
{
    let public_key = hex_encode(public_key);
    let private_key = hex_encode(private_key);
    let inscription = domain_inscription(domain, public_key.as_str(), seconds_of(millis));
    (inscription, private_key)
}

/// Makes a key pair for `domain` and writes its inscription as of now.
/// Returns the text of the inscription and the private key in hexadecimal.
pub fn generate_domain_inscription(domain: &str) -> (r: (String, String))
    ensures
        exists|public_key: Seq<u8>, private_key: Seq<u8>, millis: i64|
            r.0@ == #[trigger] inscription_text(
                domain@,
                hex_encoded(public_key),
                whole_seconds(millis as int),
            ) && r.1@ == #[trigger] hex_encoded(private_key),
{
    let (public_key, private_key) = dilithium5_keypair();
    let millis = now_millis();
    let r = inscription_with(domain, public_key.as_slice(), private_key.as_slice(), millis);
    assert(r.0@ == inscription_text(
        domain@,
        hex_encoded(public_key@),
        whole_seconds(millis as int),
    ) && r.1@ == hex_encoded(private_key@));
    r
}

/// What is handed out of a private key as it is stored: nothing where none
/// is stored for the requester, else the key, decrypted, or why it cannot be
/// read.
pub open spec fn private_key_of(key: Seq<u8>, stored: Option<(Seq<u8>, i16)>) -> Result<
    Option<Seq<char>>,
    DecryptError,
> {
    match stored {
        None => Ok(None),
        Some((text, method)) => if EncryptionMethods::coded(method) is None {
            Err(DecryptError::UnknownMethod)
        } else {
            match decrypted_text(key, text) {
                Ok(private_key) => Ok(Some(private_key)),
                Err(e) => Err(e),
            }
        },
    }
}

/// The private key of a domain for the requester who holds it: `stored` is
/// what was found for the requester and the domain, the encrypted key and
/// the number of its cipher.
pub fn get_private_key(stored: Option<(&str, i16)>, key: &EncryptionKey) -> (r: Result<
    Option<GetPrivateKeyResponseObject>,
    DecryptError,
>)
    ensures
        match r {
            Ok(Some(held)) => private_key_of(
                key@,
                match stored {
                    Some((text, method)) => Some((text.spec_bytes(), method)),
                    None => None,
                },
            ) == Ok::<Option<Seq<char>>, DecryptError>(Some(held.private_key@)),
            Ok(None) => stored is None,
            Err(e) => private_key_of(
                key@,
                match stored {
                    Some((text, method)) => Some((text.spec_bytes(), method)),
                    None => None,
                },
            ) == Err::<Option<Seq<char>>, DecryptError>(e),
        },
{
    match stored {
        None => Ok(None),
        Some((text, method)) => match decrypt_stored(text, method, key) {
            Ok(private_key) => Ok(Some(GetPrivateKeyResponseObject { private_key })),
            Err(e) => Err(e),
        },
    }
}

} // verus!
