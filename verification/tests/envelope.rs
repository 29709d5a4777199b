use std::ops::Range;

use hmac::Mac;

use rustmacaroon::util::{as_base64, from_base64, CodecError};
use rustmacaroon::{Caveat, Encodable, Macaroon, VerificationError};

#[derive(Debug, PartialEq)]
enum CaveatError {
    Forbidden,
}

#[derive(Debug, PartialEq)]
struct RangeCaveat(Range<usize>);

fn range_value(start: usize, end: usize) -> serde_json::Value {
    let mut obj = serde_json::Map::new();
    obj.insert(String::from("start"), serde_json::Value::from(start as u64));
    obj.insert(String::from("end"), serde_json::Value::from(end as u64));
    serde_json::Value::Object(obj)
}

impl Encodable for RangeCaveat {
    fn encode(&self) -> Vec<u8> {
        canonical_json::to_string(&range_value(self.0.start, self.0.end))
            .expect("canonical encoding failed")
            .into_bytes()
    }
}

impl Caveat for RangeCaveat {
    type Error = CaveatError;
    type Context = usize;

    fn verify(&self, ctx: &Self::Context) -> Result<(), Self::Error> {
        if self.0.contains(ctx) {
            Ok(())
        } else {
            Err(CaveatError::Forbidden)
        }
    }
}

// A caveat the client can carry and re-serialize without owning any
// verification logic for it.
struct AbstractRangeCaveat(Range<usize>);

impl Encodable for AbstractRangeCaveat {
    fn encode(&self) -> Vec<u8> {
        canonical_json::to_string(&range_value(self.0.start, self.0.end))
            .expect("canonical encoding failed")
            .into_bytes()
    }
}

fn envelope_string(id: String, ranges: Vec<(u64, u64)>, sig: String, fail_msg: &str) -> String {
    let caveat_vals: Vec<serde_json::Value> = ranges
        .iter()
        .map(|(s, e)| range_value(*s as usize, *e as usize))
        .collect();
    let arr = vec![
        serde_json::Value::String(id),
        serde_json::Value::Array(caveat_vals),
        serde_json::Value::String(sig),
    ];
    serde_json::to_string(&serde_json::Value::Array(arr)).expect(fail_msg)
}

fn envelope_parts(text: &str, fail_msg: &str) -> (String, Vec<(u64, u64)>, String) {
    let value: serde_json::Value = serde_json::from_str(text).expect(fail_msg);
    let arr = value.as_array().expect(fail_msg);
    let id = arr[0].as_str().expect(fail_msg).to_string();
    let ranges: Vec<(u64, u64)> = arr[1]
        .as_array()
        .expect(fail_msg)
        .iter()
        .map(|cv| {
            let start = cv.get("start").and_then(|v| v.as_u64()).expect(fail_msg);
            let end = cv.get("end").and_then(|v| v.as_u64()).expect(fail_msg);
            (start, end)
        })
        .collect();
    let sig = arr[2].as_str().expect(fail_msg).to_string();
    (id, ranges, sig)
}

#[test]
fn verify_deserialized() {
    let key = b"mysecretkey";

    let original_macaroon: Macaroon<RangeCaveat> = Macaroon::new("mymacaroon", key)
        .attenuate(RangeCaveat(10..16))
        .attenuate(RangeCaveat(14..18));

    let (id, caveats, sig) = original_macaroon.into_parts();
    let serialized = envelope_string(
        id,
        caveats
            .iter()
            .map(|c| (c.0.start as u64, c.0.end as u64))
            .collect(),
        sig,
        "Failed to serialize macaroon",
    );

    let (id, ranges, sig) = envelope_parts(&serialized, "Failed to deserialize macaroon");
    let caveats: Vec<RangeCaveat> = ranges
        .iter()
        .map(|(s, e)| RangeCaveat(*s as usize..*e as usize))
        .collect();
    let macaroon: Macaroon<RangeCaveat> =
        Macaroon::from_parts(id, caveats, &sig).expect("Failed to deserialize macaroon");

    let error = Err(VerificationError::CaveatFailed(CaveatError::Forbidden));

    assert_eq!(macaroon.verify(key, &9), error);
    assert_eq!(macaroon.verify(key, &10), error);
    assert_eq!(macaroon.verify(key, &11), error);
    assert_eq!(macaroon.verify(key, &12), error);
    assert_eq!(macaroon.verify(key, &13), error);
    assert!(macaroon.verify(key, &14).is_ok());
    assert!(macaroon.verify(key, &15).is_ok());
    assert_eq!(macaroon.verify(key, &16), error);
    assert_eq!(macaroon.verify(key, &17), error);
    assert_eq!(macaroon.verify(key, &18), error);
    assert_eq!(macaroon.verify(key, &19), error);
}

#[test]
fn client_side_refine() {
    let key = b"mysecretkey";

    let original_macaroon: Macaroon<RangeCaveat> =
        Macaroon::new("mymacaroon", key).attenuate(RangeCaveat(10..16));

    let (id, caveats, sig) = original_macaroon.into_parts();
    let serialized = envelope_string(
        id,
        caveats
            .iter()
            .map(|c| (c.0.start as u64, c.0.end as u64))
            .collect(),
        sig,
        "Failed to serialize macaroon",
    );

    let serialized = {
        // The client knows how to encode its caveat but cannot verify any.
        let (id, ranges, sig) = envelope_parts(&serialized, "Failed to deserialize macaroon");
        let caveats: Vec<AbstractRangeCaveat> = ranges
            .iter()
            .map(|(s, e)| AbstractRangeCaveat(*s as usize..*e as usize))
            .collect();
        let client_macaroon: Macaroon<AbstractRangeCaveat> =
            Macaroon::from_parts(id, caveats, &sig).expect("Failed to deserialize macaroon");

        let new_macaroon = client_macaroon.attenuate(AbstractRangeCaveat(14..18));

        let (id, caveats, sig) = new_macaroon.into_parts();
        envelope_string(
            id,
            caveats
                .iter()
                .map(|c| (c.0.start as u64, c.0.end as u64))
                .collect(),
            sig,
            "Failed to re-serialize macaroon",
        )
    };

    let (id, ranges, sig) = envelope_parts(&serialized, "Failed to deserialize macaroon");
    let caveats: Vec<RangeCaveat> = ranges
        .iter()
        .map(|(s, e)| RangeCaveat(*s as usize..*e as usize))
        .collect();
    let macaroon: Macaroon<RangeCaveat> =
        Macaroon::from_parts(id, caveats, &sig).expect("Failed to deserialize macaroon");

    let error = Err(VerificationError::CaveatFailed(CaveatError::Forbidden));

    assert_eq!(macaroon.verify(key, &9), error);
    assert_eq!(macaroon.verify(key, &10), error);
    assert_eq!(macaroon.verify(key, &11), error);
    assert_eq!(macaroon.verify(key, &12), error);
    assert_eq!(macaroon.verify(key, &13), error);
    assert!(macaroon.verify(key, &14).is_ok());
    assert!(macaroon.verify(key, &15).is_ok());
    assert_eq!(macaroon.verify(key, &16), error);
    assert_eq!(macaroon.verify(key, &17), error);
    assert_eq!(macaroon.verify(key, &18), error);
    assert_eq!(macaroon.verify(key, &19), error);
}

#[test]
fn independent_rederivation() {
    let key = b"mysecretkey";

    let macaroon: Macaroon<RangeCaveat> =
        Macaroon::new("mymacaroon", key).attenuate(RangeCaveat(14..18));

    // Re-derive the chain with the primitive directly, from the fixed
    // identifier and the caveat's canonical encoding.
    let mut link0 = <hmac::Hmac<sha2::Sha512> as hmac::KeyInit>::new_from_slice(key)
        .expect("HMAC accepts keys of any length");
    link0.update(b"mymacaroon");
    let tag0 = link0.finalize().into_bytes();

    let mut link1 = <hmac::Hmac<sha2::Sha512> as hmac::KeyInit>::new_from_slice(tag0.as_slice())
        .expect("HMAC accepts keys of any length");
    link1.update(b"{\"end\":18,\"start\":14}");
    let tag1 = link1.finalize().into_bytes();

    assert_eq!(macaroon.tail().as_slice(), tag1.as_slice());

    let expected_b64 =
        base64::Engine::encode(&base64::engine::general_purpose::URL_SAFE, tag1.as_slice());
    let (_, _, sig) = macaroon.into_parts();
    assert_eq!(sig, expected_b64);
}

#[test]
fn signature_text_round_trips() {
    let bytes: Vec<u8> = (0u8..64).collect();
    let text = as_base64(&bytes);
    assert_eq!(from_base64(&text), Ok(bytes));
}

#[test]
fn malformed_base64_is_a_codec_error() {
    assert_eq!(
        from_base64("not base64 at all!"),
        Err(CodecError::InvalidBase64)
    );
    // Non-canonical padding is refused as well.
    assert_eq!(from_base64("QUJD="), Err(CodecError::InvalidBase64));
}

#[test]
fn truncated_signature_is_a_codec_error() {
    let short = as_base64(&[1u8, 2, 3]);
    let r: Result<Macaroon<RangeCaveat>, CodecError> =
        Macaroon::from_parts(String::from("mymacaroon"), Vec::new(), &short);
    assert_eq!(r.unwrap_err(), CodecError::WrongSignatureLength);
}

#[test]
fn reencode_preserves_verification() {
    let key = b"mysecretkey";

    let macaroon: Macaroon<RangeCaveat> = Macaroon::new("mymacaroon", key)
        .attenuate(RangeCaveat(10..16))
        .attenuate(RangeCaveat(14..18));
    let tail_before = macaroon.tail().clone();

    let macaroon = macaroon.reencode();

    assert_eq!(macaroon.tail(), &tail_before);
    assert!(macaroon.verify(key, &15).is_ok());
    assert_eq!(
        macaroon.verify(key, &9),
        Err(VerificationError::CaveatFailed(CaveatError::Forbidden))
    );
}
