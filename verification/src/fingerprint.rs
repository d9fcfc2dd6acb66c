//! Content fingerprints of the topology and mix inputs: `sha256:` and the
//! lower-case hex of the SHA-256 digest.
use vstd::prelude::*;

use sha2::{Digest, Sha256};

verus! {

/// The SHA-256 digest of a byte string.
pub uninterp spec fn sha256_of(bytes: Seq<u8>) -> Seq<u8>;

/// `sha2::Sha256::digest`: the digest of `bytes`, which is 32 bytes long.
#[verifier::external_body]
fn sha256_digest(bytes: &[u8]) -> (r: Vec<u8>)
    ensures
        r@ == sha256_of(bytes@),
        r@.len() == 32,
{
    Sha256::digest(bytes).to_vec()
}

/// The lower-case hex digit of `n < 16`.
pub open spec fn hex_char(n: nat) -> char {
    if n < 10 {
        ((n + 48) as u32) as char
    } else {
        ((n - 10 + 97) as u32) as char
    }
}

/// Two lower-case hex digits per byte, high nibble first.
pub open spec fn spec_hex(bytes: Seq<u8>) -> Seq<char>
    decreases bytes.len(),
{
    if bytes.len() == 0 {
        Seq::empty()
    } else {
        spec_hex(bytes.drop_last()) + seq![
            hex_char((bytes.last() / 16) as nat),
            hex_char((bytes.last() % 16) as nat),
        ]
    }
}

fn hex_digit(n: u8) -> (c: &'static str)
    requires
        n < 16,
    ensures
        c@ == seq![hex_char(n as nat)],
{
    let digits = "0123456789abcdef";
    proof {
        reveal_strlit("0123456789abcdef");
        assert(digits@.len() == 16);
        assert forall|k: int| 0 <= k < 16 implies digits@[k] == hex_char(k as nat) by {
            reveal_strlit("0123456789abcdef");
        }
    }
    let s = digits.substring_char(n as usize, n as usize + 1);
    assert(s@ =~= seq![hex_char(n as nat)]);
    s
}

/// Lower-case hex of a byte string.
pub fn hex(bytes: &Vec<u8>) -> (r: String)
    ensures
        r@ == spec_hex(bytes@),
{
    let mut out = String::new();
    let mut i: usize = 0;
    while i < bytes.len()
        invariant
            i <= bytes@.len(),
            out@ == spec_hex(bytes@.take(i as int)),
        decreases bytes@.len() - i,
    {
        let b = bytes[i];
        out.append(hex_digit(b / 16));
        out.append(hex_digit(b % 16));
        assert(bytes@.take(i + 1).drop_last() =~= bytes@.take(i as int));
        assert(out@ =~= spec_hex(bytes@.take(i + 1)));
        i = i + 1;
    }
    assert(bytes@.take(bytes@.len() as int) =~= bytes@);
    out
}

/// `sha256:` then the lower-case hex of the digest of `bytes`.
pub fn sha256_hex(bytes: &[u8]) -> (r: String)
    ensures
        r@ == "sha256:"@ + spec_hex(sha256_of(bytes@)),
{
    let d = sha256_digest(bytes);
    let h = hex(&d);
    let r = String::from_str("sha256:").concat(h.as_str());
    proof {
        reveal_strlit("sha256:");
    }
    r
}

/// GPU count of a built-in topology name: `n32` 256, `n64` 512, `n256` 2048,
/// `n1024` 8192.
pub open spec fn spec_builtin_gpus(name: Seq<char>) -> Option<u32> {
    if name == "n32"@ {
        Some(256)
    } else if name == "n64"@ {
        Some(512)
    } else if name == "n256"@ {
        Some(2048)
    } else if name == "n1024"@ {
        Some(8192)
    } else {
        None
    }
}

pub fn builtin_gpus(name: &str) -> (r: Option<u32>)
    ensures
        r == spec_builtin_gpus(name@),
{
    let c = crate::cli_text::chars_of(name);
    if crate::cli_text::is_word(&c, "n32") {
        Some(256)
    } else if crate::cli_text::is_word(&c, "n64") {
        Some(512)
    } else if crate::cli_text::is_word(&c, "n256") {
        Some(2048)
    } else if crate::cli_text::is_word(&c, "n1024") {
        Some(8192)
    } else {
        None
    }
}

} // verus!
