use vstd::prelude::*;
use vstd::string::StringExecFns;

verus! {

/// The number of digits in a confirmation code.
pub const CODE_DIGITS: usize = 6;

/// The validity window of a confirmation code, in seconds.
pub const CODE_STEP: u64 = 30;

/// The accepted clock skew, in validity windows.
pub const CODE_SKEW: u8 = 1;

/// The sentinel a caller supplies to mean "no code given". It never
/// authorizes a deletion; it asks for the currently valid code instead.
pub const NO_CODE: &'static str = "No code";

/// The fixed shared secret behind the confirmation codes, as bytes: the
/// ASCII text `RandomUnimportantSecret`. The code check guards against
/// accidental invocation, not against an adversary; the secret is a plain
/// constant of the program on purpose.
pub open spec fn gate_secret() -> Seq<u8> {
    seq![
        82u8, 97u8, 110u8, 100u8, 111u8, 109u8, 85u8, 110u8, 105u8, 109u8, 112u8, 111u8, 114u8,
        116u8, 97u8, 110u8, 116u8, 83u8, 101u8, 99u8, 114u8, 101u8, 116u8,
    ]
}

/// The shared secret as a concrete byte vector.
pub fn gate_secret_bytes() -> (v: Vec<u8>)
    ensures
        v@ == gate_secret(),
{
    let mut v: Vec<u8> = Vec::new();
    v.push(82);
    v.push(97);
    v.push(110);
    v.push(100);
    v.push(111);
    v.push(109);
    v.push(85);
    v.push(110);
    v.push(105);
    v.push(109);
    v.push(112);
    v.push(111);
    v.push(114);
    v.push(116);
    v.push(97);
    v.push(110);
    v.push(116);
    v.push(83);
    v.push(101);
    v.push(99);
    v.push(114);
    v.push(101);
    v.push(116);
    proof {
        assert(v@ =~= gate_secret());
    }
    v
}

/// What totp_rs's SHA-1 token generation returns for a given secret, digit
/// count, window length and timestamp. The value is an HMAC-based
/// computation of these arguments alone, so it carries a name rather than
/// a transcription of the algorithm.
pub uninterp spec fn totp_code(secret: Seq<u8>, digits: int, step: u64, time: u64) -> Seq<char>;

/// Relies on totp_rs::TOTP::{new, generate}, under the SHA-1 algorithm:
/// the token is a function of the secret, the digit count, the window
/// length and the timestamp alone (the skew plays no part in generation),
/// and it is a string of exactly `digits` decimal digits. `TOTP::new`
/// accepts 6 to 8 digits and a secret of at least 16 bytes; `generate`
/// divides time by the window length, which must not be zero.
#[verifier::external_body]
fn totp_generate_at(secret: &Vec<u8>, digits: usize, skew: u8, step: u64, time: u64) -> (r: String)
    requires
        6 <= digits <= 8,
        secret@.len() >= 16,
        step >= 1,
    ensures
        r@ == totp_code(secret@, digits as int, step, time),
        r@.len() == digits,
{
    let totp = totp_rs::TOTP::new(totp_rs::Algorithm::SHA1, digits, skew, step, secret.clone())
        .unwrap();
    totp.generate(time)
}

/// Relies on totp_rs::TOTP::generate_current, under the SHA-1 algorithm:
/// it is `TOTP::generate` applied to the system clock's current reading,
/// so every token it returns is the token of some timestamp; it fails
/// exactly when the clock reads before the Unix epoch.
#[verifier::external_body]
fn totp_generate_now(secret: &Vec<u8>, digits: usize, skew: u8, step: u64) -> (r: Option<String>)
    requires
        6 <= digits <= 8,
        secret@.len() >= 16,
        step >= 1,
    ensures
        r matches Some(code) ==> exists|t: u64|
            code@ == totp_code(secret@, digits as int, step, t),
        r matches Some(code) ==> code@.len() == digits,
{
    let totp = totp_rs::TOTP::new(totp_rs::Algorithm::SHA1, digits, skew, step, secret.clone())
        .unwrap();
    totp.generate_current().ok()
}

/// The confirmation code that is valid at timestamp `time` (seconds since
/// the Unix epoch): six decimal digits over the fixed shared secret in
/// thirty-second windows. A fixed timestamp makes the outcome repeatable,
/// which is what tests use.
pub fn code_at(time: u64) -> (r: String)
    ensures
        r@ == totp_code(gate_secret(), CODE_DIGITS as int, CODE_STEP, time),
        r@.len() == CODE_DIGITS,
{
    let secret = gate_secret_bytes();
    totp_generate_at(&secret, CODE_DIGITS, CODE_SKEW, CODE_STEP, time)
}

/// The confirmation code that is valid right now, or `None` when the
/// system clock reads before the Unix epoch.
pub fn current_code() -> (r: Option<String>)
    ensures
        r matches Some(code) ==> exists|t: u64|
            code@ == totp_code(gate_secret(), CODE_DIGITS as int, CODE_STEP, t),
        r matches Some(code) ==> code@.len() == CODE_DIGITS,
{
    let secret = gate_secret_bytes();
    totp_generate_now(&secret, CODE_DIGITS, CODE_SKEW, CODE_STEP)
}

/// Law: a confirmation code has six characters and the "no code" sentinel
/// has seven, so the sentinel is never a valid code, and supplying the
/// currently valid code itself always authorizes.
pub proof fn lemma_code_is_never_the_sentinel(code: Seq<char>)
    requires
        code.len() == CODE_DIGITS,
    ensures
        code != NO_CODE@,
{
    reveal_strlit("No code");
}

/// Whether a supplied code authorizes a deletion, judged against the code
/// `current` that is valid right now: the "no code" sentinel never
/// authorizes anything, and any other string authorizes exactly when it
/// equals the current code.
pub fn check_code(supplied: &String, current: &String) -> (r: bool)
    ensures
        r <==> (supplied@ != NO_CODE@ && supplied@ == current@),
{
    let sentinel = String::from_str(NO_CODE);
    if supplied.eq(&sentinel) {
        false
    } else {
        supplied.eq(current)
    }
}

} // verus!
